//! The relation a fit reads: columns by name, rows by number, and the groups of rows
//! that share a key.
use crate::double::Double;
use crate::errors::{BayesError, BayesResult, Fault};
use crate::text::same_text;
use crate::types::{global_group_key, validate_group_key};
use vstd::prelude::*;

verus! {

/// A column of numbers; an entry that is not valid is absent.
#[derive(Debug)]
pub struct NumericColumn {
    pub name: String,
    pub values: Vec<Double>,
    pub valid: Vec<bool>,
}

/// A column of keys; an entry that is not valid is absent.
#[derive(Debug)]
pub struct KeyColumn {
    pub name: String,
    pub values: Vec<String>,
    pub valid: Vec<bool>,
}

/// A relation.
#[derive(Debug)]
pub struct DataView {
    pub n_rows: usize,
    pub numeric: Vec<NumericColumn>,
    pub keys: Vec<KeyColumn>,
}

/// The rows that share a key, in the order of the relation.
#[derive(Debug)]
pub struct Group {
    pub key: String,
    pub rows: Vec<usize>,
}

/// What a [`Group`] holds.
#[verifier::ext_equal]
pub struct Members {
    pub key: Seq<char>,
    pub rows: Seq<usize>,
}

impl View for Group {
    type V = Members;

    open spec fn view(&self) -> Members {
        Members { key: self.key@, rows: self.rows@ }
    }
}

/// The groups that a sequence of them holds.
pub open spec fn groups_of(s: Seq<Group>) -> Seq<Members> {
    Seq::new(s.len(), |i: int| s[i]@)
}

/// The keys of several groups.
pub open spec fn keys_of(s: Seq<Members>) -> Seq<Seq<char>> {
    Seq::new(s.len(), |i: int| s[i].key)
}

/// The names of the number columns.
pub open spec fn numeric_names(columns: Seq<NumericColumn>) -> Seq<Seq<char>> {
    Seq::new(columns.len(), |i: int| columns[i].name@)
}

/// The names of the key columns.
pub open spec fn key_names(columns: Seq<KeyColumn>) -> Seq<Seq<char>> {
    Seq::new(columns.len(), |i: int| columns[i].name@)
}

/// The first number column of that name, from the column numbered `k` on.
pub open spec fn numeric_from(columns: Seq<NumericColumn>, name: Seq<char>, k: int) -> Option<
    NumericColumn,
>
    decreases columns.len() - k,
{
    if k < 0 || k >= columns.len() {
        None
    } else if columns[k].name@ == name {
        Some(columns[k])
    } else {
        numeric_from(columns, name, k + 1)
    }
}

/// The first key column of that name, from the column numbered `k` on.
pub open spec fn key_from(columns: Seq<KeyColumn>, name: Seq<char>, k: int) -> Option<KeyColumn>
    decreases columns.len() - k,
{
    if k < 0 || k >= columns.len() {
        None
    } else if columns[k].name@ == name {
        Some(columns[k])
    } else {
        key_from(columns, name, k + 1)
    }
}

proof fn lemma_numeric_from(columns: Seq<NumericColumn>, name: Seq<char>, k: int)
    requires
        0 <= k <= columns.len(),
    ensures
        match numeric_from(columns, name, k) {
            Some(c) => exists|i: int|
                k <= i < columns.len() && #[trigger] columns[i] == c && c.name@ == name && forall|
                    j: int,
                |
                    k <= j < i ==> (#[trigger] columns[j]).name@ != name,
            None => forall|i: int| k <= i < columns.len() ==> (#[trigger] columns[i]).name@ != name,
        },
    decreases columns.len() - k,
{
    if k < columns.len() {
        if columns[k].name@ == name {
            assert(columns[k] == numeric_from(columns, name, k)->0);
        } else {
            lemma_numeric_from(columns, name, k + 1);
            if let Some(c) = numeric_from(columns, name, k + 1) {
                let i = choose|i: int|
                    k + 1 <= i < columns.len() && #[trigger] columns[i] == c && c.name@ == name
                        && forall|j: int|
                        k + 1 <= j < i ==> (#[trigger] columns[j]).name@ != name;
                assert(columns[i] == c);
            }
        }
    }
}

proof fn lemma_key_from(columns: Seq<KeyColumn>, name: Seq<char>, k: int)
    requires
        0 <= k <= columns.len(),
    ensures
        match key_from(columns, name, k) {
            Some(c) => exists|i: int|
                k <= i < columns.len() && #[trigger] columns[i] == c && c.name@ == name && forall|
                    j: int,
                |
                    k <= j < i ==> (#[trigger] columns[j]).name@ != name,
            None => forall|i: int| k <= i < columns.len() ==> (#[trigger] columns[i]).name@ != name,
        },
    decreases columns.len() - k,
{
    if k < columns.len() {
        if columns[k].name@ == name {
            assert(columns[k] == key_from(columns, name, k)->0);
        } else {
            lemma_key_from(columns, name, k + 1);
            if let Some(c) = key_from(columns, name, k + 1) {
                let i = choose|i: int|
                    k + 1 <= i < columns.len() && #[trigger] columns[i] == c && c.name@ == name
                        && forall|j: int|
                        k + 1 <= j < i ==> (#[trigger] columns[j]).name@ != name;
                assert(columns[i] == c);
            }
        }
    }
}

/// A column is looked up by its own name: the first of the relation that has it, and none
/// where no column has it.
pub proof fn a_column_is_found_by_its_own_name(data: DataView, name: Seq<char>)
    ensures
        match data.column(name) {
            Some(c) => exists|i: int|
                0 <= i < data.numeric@.len() && #[trigger] data.numeric@[i] == c && c.name@ == name
                    && forall|j: int| 0 <= j < i ==> (#[trigger] data.numeric@[j]).name@ != name,
            None => forall|i: int|
                0 <= i < data.numeric@.len() ==> (#[trigger] data.numeric@[i]).name@ != name,
        },
        match data.key_column(name) {
            Some(c) => exists|i: int|
                0 <= i < data.keys@.len() && #[trigger] data.keys@[i] == c && c.name@ == name
                    && forall|j: int| 0 <= j < i ==> (#[trigger] data.keys@[j]).name@ != name,
            None => forall|i: int|
                0 <= i < data.keys@.len() ==> (#[trigger] data.keys@[i]).name@ != name,
        },
{
    lemma_numeric_from(data.numeric@, name, 0);
    lemma_key_from(data.keys@, name, 0);
}

/// The first fault in a sequence of checks.
pub open spec fn first_fault(checks: Seq<Option<Fault>>) -> Option<Fault>
    decreases checks.len(),
{
    if checks.len() == 0 {
        None
    } else if checks[0] is Some {
        checks[0]
    } else {
        first_fault(checks.drop_first())
    }
}

/// The checks before the first that fails decide nothing.
pub proof fn lemma_first_fault(checks: Seq<Option<Fault>>, k: int)
    requires
        0 <= k <= checks.len(),
        forall|i: int| 0 <= i < k ==> (#[trigger] checks[i]) is None,
    ensures
        k == checks.len() ==> first_fault(checks) is None,
        k < checks.len() && checks[k] is Some ==> first_fault(checks) == checks[k],
    decreases k,
{
    if k > 0 {
        let rest = checks.drop_first();
        assert forall|i: int| 0 <= i < k - 1 implies (#[trigger] rest[i]) is None by {
            assert(rest[i] == checks[i + 1]);
        }
        lemma_first_fault(rest, k - 1);
    }
}

/// Where no check of a sequence is the first to fail, none fails.
pub proof fn lemma_no_fault(checks: Seq<Option<Fault>>)
    requires
        first_fault(checks) is None,
    ensures
        forall|i: int| 0 <= i < checks.len() ==> (#[trigger] checks[i]) is None,
    decreases checks.len(),
{
    if checks.len() > 0 {
        let rest = checks.drop_first();
        lemma_no_fault(rest);
        assert forall|i: int| 0 <= i < checks.len() implies (#[trigger] checks[i]) is None by {
            if i > 0 {
                assert(rest[i - 1] == checks[i]);
            }
        }
    }
}

/// Where one sequence of checks finds nothing, neither does another that fails nowhere else.
pub proof fn lemma_no_fault_follows(checks: Seq<Option<Fault>>, others: Seq<Option<Fault>>)
    requires
        first_fault(checks) is None,
        checks.len() == others.len(),
        forall|i: int|
            0 <= i < checks.len() && checks[i] is None ==> (#[trigger] others[i]) is None,
    ensures
        first_fault(others) is None,
{
    lemma_no_fault(checks);
    assert forall|i: int| 0 <= i < others.len() implies (#[trigger] others[i]) is None by {
        assert(checks[i] is None);
    }
    lemma_first_fault(others, others.len() as int);
}

/// The first fault is that of a check.
pub proof fn lemma_fault_of_a_check(checks: Seq<Option<Fault>>)
    ensures
        first_fault(checks) is Some ==> exists|i: int|
            0 <= i < checks.len() && (#[trigger] checks[i]) == first_fault(checks),
    decreases checks.len(),
{
    if checks.len() > 0 {
        if checks[0] is None && first_fault(checks) is Some {
            let rest = checks.drop_first();
            lemma_fault_of_a_check(rest);
            let i = choose|i: int| 0 <= i < rest.len() && (#[trigger] rest[i]) == first_fault(rest);
            assert(checks[i + 1] == first_fault(checks));
        } else {
            assert(checks[0] == checks[0]);
        }
    }
}

/// The label of a row.
pub open spec fn label(column: KeyColumn, row: usize) -> Seq<char> {
    column.values@[row as int]@
}

/// The keys of the rows, each once, in the order in which they first appear.
pub open spec fn distinct(column: KeyColumn, rows: Seq<usize>) -> Seq<Seq<char>>
    decreases rows.len(),
{
    if rows.len() == 0 {
        Seq::empty()
    } else {
        let before = distinct(column, rows.drop_last());
        if before.contains(label(column, rows.last())) {
            before
        } else {
            before.push(label(column, rows.last()))
        }
    }
}

/// The rows that carry a key, in order.
pub open spec fn members(column: KeyColumn, rows: Seq<usize>, key: Seq<char>) -> Seq<usize>
    decreases rows.len(),
{
    if rows.len() == 0 {
        Seq::empty()
    } else {
        let before = members(column, rows.drop_last(), key);
        if label(column, rows.last()) == key {
            before.push(rows.last())
        } else {
            before
        }
    }
}

/// The rows parted by key.
pub open spec fn parted(column: KeyColumn, rows: Seq<usize>) -> Seq<Members> {
    let keys = distinct(column, rows);
    Seq::new(keys.len(), |g: int| Members { key: keys[g], rows: members(column, rows, keys[g]) })
}

/// The rows of all groups, group after group.
pub open spec fn in_group_order(groups: Seq<Members>) -> Seq<usize>
    decreases groups.len(),
{
    if groups.len() == 0 {
        Seq::empty()
    } else {
        in_group_order(groups.drop_last()) + groups.last().rows
    }
}

/// Of each row of [`in_group_order`], the number of its group.
pub open spec fn group_numbers(groups: Seq<Members>) -> Seq<usize>
    decreases groups.len(),
{
    if groups.len() == 0 {
        Seq::empty()
    } else {
        group_numbers(groups.drop_last()) + Seq::new(
            groups.last().rows.len(),
            |i: int| (groups.len() - 1) as usize,
        )
    }
}

/// The fault of the first group whose key may not be used.
pub open spec fn group_keys_fault(groups: Seq<Members>) -> Option<Fault> {
    first_fault(Seq::new(groups.len(), |i: int| crate::types::group_key_fault(groups[i].key)))
}

/// The values of a column at several rows.
pub open spec fn gathered(column: NumericColumn, rows: Seq<usize>) -> Seq<Double> {
    Seq::new(rows.len(), |i: int| column.values@[rows[i] as int])
}

impl DataView {
    /// Every column has an entry, present or absent, for every row, and the rows are few
    /// enough for a few parameters per row to be numbered.
    pub open spec fn wf(self) -> bool {
        &&& self.n_rows <= usize::MAX / 4
        &&& forall|i: int|
            0 <= i < self.numeric@.len() ==> (#[trigger] self.numeric@[i]).values@.len()
                == self.n_rows && self.numeric@[i].valid@.len() == self.n_rows
        &&& forall|i: int|
            0 <= i < self.keys@.len() ==> (#[trigger] self.keys@[i]).values@.len() == self.n_rows
                && self.keys@[i].valid@.len() == self.n_rows
    }

    pub open spec fn column(self, name: Seq<char>) -> Option<NumericColumn> {
        numeric_from(self.numeric@, name, 0)
    }

    pub open spec fn key_column(self, name: Seq<char>) -> Option<KeyColumn> {
        key_from(self.keys@, name, 0)
    }

    pub open spec fn no_column(self, name: Seq<char>) -> Fault {
        Fault::MissingColumn { name, available: numeric_names(self.numeric@) }
    }

    pub open spec fn no_key(self, name: Seq<char>) -> Fault {
        Fault::MissingColumn { name, available: key_names(self.keys@) }
    }

    /// Per named column, number columns first, the fault of its absence.
    pub open spec fn presence(self, numeric: Seq<Seq<char>>, keys: Seq<Seq<char>>) -> Seq<
        Option<Fault>,
    > {
        Seq::new(
            numeric.len() + keys.len(),
            |i: int|
                if i < numeric.len() {
                    if self.column(numeric[i]) is None {
                        Some(self.no_column(numeric[i]))
                    } else {
                        None
                    }
                } else {
                    if self.key_column(keys[i - numeric.len()]) is None {
                        Some(self.no_key(keys[i - numeric.len()]))
                    } else {
                        None
                    }
                },
        )
    }

    /// Whether no named column is absent in a row.
    pub open spec fn complete(
        self,
        numeric: Seq<Seq<char>>,
        keys: Seq<Seq<char>>,
        row: int,
    ) -> bool {
        &&& forall|i: int|
            0 <= i < numeric.len() ==> self.column(#[trigger] numeric[i])->0.valid@[row]
        &&& forall|i: int|
            0 <= i < keys.len() ==> self.key_column(#[trigger] keys[i])->0.valid@[row]
    }

    /// The complete rows among the first `n`, in order.
    pub open spec fn complete_rows(
        self,
        numeric: Seq<Seq<char>>,
        keys: Seq<Seq<char>>,
        n: nat,
    ) -> Seq<usize>
        decreases n,
    {
        if n == 0 {
            Seq::empty()
        } else {
            let before = self.complete_rows(numeric, keys, (n - 1) as nat);
            if self.complete(numeric, keys, n - 1) {
                before.push((n - 1) as usize)
            } else {
                before
            }
        }
    }

    /// The rows that a fit reads, or the fault of a column that is not there.
    pub open spec fn usable(self, numeric: Seq<Seq<char>>, keys: Seq<Seq<char>>) -> Result<
        Seq<usize>,
        Fault,
    > {
        match first_fault(self.presence(numeric, keys)) {
            Some(fault) => Err(fault),
            None => Ok(self.complete_rows(numeric, keys, self.n_rows as nat)),
        }
    }

    /// The groups of the rows: one per key where a column names them, else one in all.
    pub open spec fn groups(self, group: Option<Seq<char>>, rows: Seq<usize>) -> Result<
        Seq<Members>,
        Fault,
    > {
        match group {
            None => Ok(seq![Members { key: crate::types::global_group(), rows }]),
            Some(name) => match self.key_column(name) {
                Some(column) => Ok(parted(column, rows)),
                None => Err(self.no_key(name)),
            },
        }
    }
}

/// Whether a row carries a key.
pub open spec fn carries(column: KeyColumn, key: Seq<char>, row: int) -> bool {
    column.valid@[row] && column.values@[row]@ == key
}

/// The rows among the first `n` that carry a key, in order.
pub open spec fn keyed_rows(column: KeyColumn, key: Seq<char>, n: nat) -> Seq<usize>
    decreases n,
{
    if n == 0 {
        Seq::empty()
    } else {
        let before = keyed_rows(column, key, (n - 1) as nat);
        if carries(column, key, n - 1) {
            before.push((n - 1) as usize)
        } else {
            before
        }
    }
}

impl DataView {
    /// Those of several rows in which no named column is absent.
    pub open spec fn readable(self, numeric: Seq<Seq<char>>, rows: Seq<usize>) -> Seq<usize>
        decreases rows.len(),
    {
        if rows.len() == 0 {
            Seq::empty()
        } else {
            let before = self.readable(numeric, rows.drop_last());
            if self.complete(numeric, Seq::empty(), rows.last() as int) {
                before.push(rows.last())
            } else {
                before
            }
        }
    }

    /// The rows that carry a key.
    pub open spec fn rows_of(self, group: Seq<char>, key: Seq<char>) -> Seq<usize> {
        keyed_rows(self.key_column(group)->0, key, self.n_rows as nat)
    }

    /// Whether two relations hold the same rows of a group, in the same order, as far as
    /// the named columns go. What other groups they hold is left open.
    pub open spec fn same_group(
        self,
        other: DataView,
        numeric: Seq<Seq<char>>,
        group: Seq<char>,
        key: Seq<char>,
    ) -> bool {
        let rows = self.rows_of(group, key);
        let others = other.rows_of(group, key);
        &&& rows.len() == others.len()
        &&& forall|c: int, i: int|
            0 <= c < numeric.len() && 0 <= i < rows.len() ==> {
                let mine = self.column(#[trigger] numeric[c])->0;
                let theirs = other.column(numeric[c])->0;
                &&& mine.valid@[(#[trigger] rows[i]) as int] == theirs.valid@[others[i] as int]
                &&& mine.values@[rows[i] as int] == theirs.values@[others[i] as int]
            }
    }
}

impl DataView {
    /// Whether another relation holds the rows of a group and no others, as far as the
    /// named columns go.
    pub open spec fn leaves_alone(
        self,
        other: DataView,
        numeric: Seq<Seq<char>>,
        group: Seq<char>,
        key: Seq<char>,
    ) -> bool {
        let rows = self.rows_of(group, key);
        let keys = other.key_column(group)->0;
        &&& other.n_rows == rows.len()
        &&& forall|i: int| 0 <= i < rows.len() ==> #[trigger] carries(keys, key, i)
        &&& forall|c: int, i: int|
            0 <= c < numeric.len() && 0 <= i < rows.len() ==> {
                let mine = self.column(#[trigger] numeric[c])->0;
                let theirs = other.column(numeric[c])->0;
                &&& mine.valid@[(#[trigger] rows[i]) as int] == theirs.valid@[i]
                &&& mine.values@[rows[i] as int] == theirs.values@[i]
            }
    }
}

proof fn lemma_all_keyed(column: KeyColumn, key: Seq<char>, n: nat)
    requires
        n <= usize::MAX,
        forall|i: int| 0 <= i < n ==> #[trigger] carries(column, key, i),
    ensures
        keyed_rows(column, key, n) == Seq::new(n, |i: int| i as usize),
    decreases n,
{
    if n > 0 {
        lemma_all_keyed(column, key, (n - 1) as nat);
        assert(carries(column, key, n - 1));
    }
    assert(keyed_rows(column, key, n) =~= Seq::new(n, |i: int| i as usize));
}

/// A relation that holds the rows of a group and no others shares the group.
pub proof fn a_relation_of_one_group_shares_it(
    a: DataView,
    b: DataView,
    numeric: Seq<Seq<char>>,
    group: Seq<char>,
    key: Seq<char>,
)
    requires
        a.leaves_alone(b, numeric, group, key),
    ensures
        a.same_group(b, numeric, group, key),
{
    lemma_all_keyed(b.key_column(group)->0, key, b.n_rows as nat);
}

/// All rows of a sequence are rows of a relation of `n` rows.
pub open spec fn rows_within(rows: Seq<usize>, n: int) -> bool {
    forall|i: int| 0 <= i < rows.len() ==> (#[trigger] rows[i]) < n
}

/// All rows of several groups are rows of a relation of `n` rows.
pub open spec fn groups_within(groups: Seq<Members>, n: int) -> bool {
    forall|g: int| 0 <= g < groups.len() ==> rows_within((#[trigger] groups[g]).rows, n)
}

proof fn lemma_complete_rows(
    data: DataView,
    numeric: Seq<Seq<char>>,
    keys: Seq<Seq<char>>,
    n: nat,
)
    requires
        n <= usize::MAX,
    ensures
        rows_within(data.complete_rows(numeric, keys, n), n as int),
        data.complete_rows(numeric, keys, n).len() <= n,
        forall|i: int, j: int|
            0 <= i < j < data.complete_rows(numeric, keys, n).len() ==> (
            #[trigger] data.complete_rows(numeric, keys, n)[i]) < (#[trigger] data.complete_rows(
                numeric,
                keys,
                n,
            )[j]),
        forall|row: usize|
            data.complete_rows(numeric, keys, n).contains(row) <==> row < n && data.complete(
                numeric,
                keys,
                row as int,
            ),
    decreases n,
{
    if n > 0 {
        lemma_complete_rows(data, numeric, keys, (n - 1) as nat);
        let before = data.complete_rows(numeric, keys, (n - 1) as nat);
        let now = data.complete_rows(numeric, keys, n);
        assert forall|row: usize| now.contains(row) <==> row < n && data.complete(
            numeric,
            keys,
            row as int,
        ) by {
            if now.contains(row) {
                let i = choose|i: int| 0 <= i < now.len() && now[i] == row;
                if i < before.len() {
                    assert(before[i] == row);
                    assert(before.contains(row));
                }
            }
            if row < n && data.complete(numeric, keys, row as int) {
                if row < n - 1 {
                    assert(before.contains(row));
                    let i = choose|i: int| 0 <= i < before.len() && before[i] == row;
                    assert(now[i] == row);
                } else {
                    assert(now[now.len() - 1] == row);
                }
            }
        }
    }
}

/// A null anywhere in a row removes the whole row, and nothing else does: the usable
/// rows are the rows in which every named column is present, each once and in order.
pub proof fn a_row_is_read_exactly_when_nothing_it_needs_is_absent(
    data: DataView,
    numeric: Seq<Seq<char>>,
    keys: Seq<Seq<char>>,
)
    ensures
        data.usable(numeric, keys) matches Ok(rows) ==> {
            &&& rows_within(rows, data.n_rows as int)
            &&& forall|row: usize|
                rows.contains(row) <==> row < data.n_rows && data.complete(
                    numeric,
                    keys,
                    row as int,
                )
            &&& forall|i: int, j: int|
                0 <= i < j < rows.len() ==> (#[trigger] rows[i]) < (#[trigger] rows[j])
        },
{
    lemma_complete_rows(data, numeric, keys, data.n_rows as nat);
}

proof fn lemma_distinct(column: KeyColumn, rows: Seq<usize>)
    ensures
        distinct(column, rows).len() <= rows.len(),
        forall|g: int, h: int|
            0 <= g < h < distinct(column, rows).len() ==> (#[trigger] distinct(column, rows)[g])
                != (#[trigger] distinct(column, rows)[h]),
        forall|i: int|
            0 <= i < rows.len() ==> distinct(column, rows).contains(
                label(column, #[trigger] rows[i]),
            ),
    decreases rows.len(),
{
    if rows.len() > 0 {
        let t = rows.drop_last();
        lemma_distinct(column, t);
        let before = distinct(column, t);
        let now = distinct(column, rows);
        let l = label(column, rows.last());
        if !before.contains(l) {
            assert(now == before.push(l));
            assert(now[before.len() as int] == l);
        }
        assert forall|i: int| 0 <= i < rows.len() implies now.contains(
            label(column, #[trigger] rows[i]),
        ) by {
            if i < t.len() {
                assert(t[i] == rows[i]);
                let g = choose|g: int|
                    0 <= g < before.len() && before[g] == label(column, rows[i]);
                assert(now[g] == label(column, rows[i]));
            }
        }
    }
}

proof fn lemma_members(column: KeyColumn, rows: Seq<usize>, key: Seq<char>)
    ensures
        members(column, rows, key).len() <= rows.len(),
        forall|i: int|
            0 <= i < members(column, rows, key).len() ==> label(
                column,
                #[trigger] members(column, rows, key)[i],
            ) == key && rows.contains(members(column, rows, key)[i]),
        members(column, rows, key).len() > 0 <==> distinct(column, rows).contains(key),
    decreases rows.len(),
{
    if rows.len() > 0 {
        let t = rows.drop_last();
        lemma_members(column, t, key);
        let before = members(column, t, key);
        let now = members(column, rows, key);
        assert forall|i: int| 0 <= i < now.len() implies label(column, #[trigger] now[i]) == key
            && rows.contains(now[i]) by {
            if i < before.len() {
                assert(before[i] == now[i]);
                let j = choose|j: int| 0 <= j < t.len() && t[j] == before[i];
                assert(rows[j] == now[i]);
            } else {
                assert(rows[rows.len() - 1] == now[i]);
            }
        }
        let d = distinct(column, t);
        let e = distinct(column, rows);
        let l = label(column, rows.last());
        if !d.contains(l) {
            assert(e[d.len() as int] == l);
            if d.contains(key) {
                let g = choose|g: int| 0 <= g < d.len() && d[g] == key;
                assert(e[g] == key);
            }
            if e.contains(key) {
                let g = choose|g: int| 0 <= g < e.len() && e[g] == key;
                if g < d.len() {
                    assert(d[g] == key);
                }
            }
        }
    }
}

/// The rows of each group are the rows of the relation that carry its key, no two groups
/// share a key, no group is empty, and every row belongs to a group.
pub proof fn groups_part_the_rows_by_key(column: KeyColumn, rows: Seq<usize>)
    ensures
        forall|g: int, h: int|
            0 <= g < h < parted(column, rows).len() ==> (#[trigger] parted(column, rows)[g]).key
                != (#[trigger] parted(column, rows)[h]).key,
        forall|g: int, i: int|
            0 <= g < parted(column, rows).len() && 0 <= i < parted(column, rows)[g].rows.len()
                ==> label(column, #[trigger] parted(column, rows)[g].rows[i]) == parted(
                column,
                rows,
            )[g].key && rows.contains(parted(column, rows)[g].rows[i]),
        forall|g: int|
            0 <= g < parted(column, rows).len() ==> (#[trigger] parted(
                column,
                rows,
            )[g]).rows.len() > 0,
        forall|i: int|
            0 <= i < rows.len() ==> keys_of(parted(column, rows)).contains(
                label(column, #[trigger] rows[i]),
            ),
{
    lemma_distinct(column, rows);
    let keys = distinct(column, rows);
    assert forall|g: int, i: int|
        0 <= g < parted(column, rows).len() && 0 <= i < parted(
            column,
            rows,
        )[g].rows.len() implies label(column, #[trigger] parted(column, rows)[g].rows[i]) == parted(
        column,
        rows,
    )[g].key && rows.contains(parted(column, rows)[g].rows[i]) by {
        lemma_members(column, rows, keys[g]);
    }
    assert forall|g: int| 0 <= g < parted(column, rows).len() implies (#[trigger] parted(
        column,
        rows,
    )[g]).rows.len() > 0 by {
        lemma_members(column, rows, keys[g]);
        assert(keys.contains(keys[g]));
    }
    assert(keys_of(parted(column, rows)) =~= keys);
}

/// The rows that a fit reads of a group are the readable ones among those that carry its
/// key.
proof fn lemma_rows_read(
    data: DataView,
    numeric: Seq<Seq<char>>,
    group: Seq<char>,
    key: Seq<char>,
    n: nat,
)
    requires
        n <= data.n_rows,
    ensures
        members(
            data.key_column(group)->0,
            data.complete_rows(numeric, seq![group], n),
            key,
        ) == data.readable(numeric, keyed_rows(data.key_column(group)->0, key, n)),
    decreases n,
{
    if n > 0 {
        let m = (n - 1) as nat;
        lemma_rows_read(data, numeric, group, key, m);
        let column = data.key_column(group)->0;
        let keys = seq![group];
        let row = m as usize;
        let before = data.complete_rows(numeric, keys, m);
        let mine = keyed_rows(column, key, m);
        assert(keys[0] == group);
        assert(data.complete(numeric, keys, m as int) == (data.complete(
            numeric,
            Seq::empty(),
            m as int,
        ) && column.valid@[m as int])) by {
            if data.complete(numeric, keys, m as int) {
                assert(data.key_column(keys[0])->0.valid@[m as int]);
            }
        }
        assert(before.push(row).drop_last() =~= before);
        assert(mine.push(row).drop_last() =~= mine);
    }
}

/// The readable rows of a group that two relations share hold the same values.
proof fn lemma_same_values(
    a: DataView,
    b: DataView,
    numeric: Seq<Seq<char>>,
    group: Seq<char>,
    key: Seq<char>,
    n: int,
)
    requires
        a.same_group(b, numeric, group, key),
        0 <= n <= a.rows_of(group, key).len(),
    ensures
        ({
            let mine = a.readable(numeric, a.rows_of(group, key).take(n));
            let theirs = b.readable(numeric, b.rows_of(group, key).take(n));
            &&& mine.len() == theirs.len()
            &&& forall|c: int|
                0 <= c < numeric.len() ==> gathered(a.column(#[trigger] numeric[c])->0, mine)
                    == gathered(b.column(numeric[c])->0, theirs)
        }),
    decreases n,
{
    let rows = a.rows_of(group, key);
    let others = b.rows_of(group, key);
    let mine = a.readable(numeric, rows.take(n));
    let theirs = b.readable(numeric, others.take(n));
    if n == 0 {
        assert forall|c: int| 0 <= c < numeric.len() implies gathered(
            a.column(#[trigger] numeric[c])->0,
            mine,
        ) == gathered(b.column(numeric[c])->0, theirs) by {
            assert(gathered(a.column(numeric[c])->0, mine) =~= gathered(
                b.column(numeric[c])->0,
                theirs,
            ));
        }
    } else {
        lemma_same_values(a, b, numeric, group, key, n - 1);
        assert(rows.take(n).drop_last() =~= rows.take(n - 1));
        assert(others.take(n).drop_last() =~= others.take(n - 1));
        let row = rows[n - 1];
        let other = others[n - 1];
        let before = a.readable(numeric, rows.take(n - 1));
        let earlier = b.readable(numeric, others.take(n - 1));
        assert(a.complete(numeric, Seq::empty(), row as int) == b.complete(
            numeric,
            Seq::empty(),
            other as int,
        )) by {
            assert forall|c: int| 0 <= c < numeric.len() implies a.column(
                #[trigger] numeric[c],
            )->0.valid@[row as int] == b.column(numeric[c])->0.valid@[other as int] by {
                assert(rows[n - 1] == row);
            }
        }
        assert forall|c: int| 0 <= c < numeric.len() implies gathered(
            a.column(#[trigger] numeric[c])->0,
            mine,
        ) == gathered(b.column(numeric[c])->0, theirs) by {
            let x = a.column(numeric[c])->0;
            let y = b.column(numeric[c])->0;
            assert(gathered(x, before) == gathered(y, earlier));
            assert(x.values@[rows[n - 1] as int] == y.values@[other as int]);
            assert forall|i: int| 0 <= i < mine.len() implies x.values@[(
            #[trigger] mine[i]) as int] == y.values@[theirs[i] as int] by {
                if i < before.len() {
                    assert(gathered(x, before)[i] == gathered(y, earlier)[i]);
                }
            }
            assert(gathered(x, mine) =~= gathered(y, theirs));
        }
    }
}

/// A group that two relations share is read alike in both, whatever other groups they
/// hold and wherever its rows stand: where it has rows to read in one it has them in the
/// other, and its columns hold the same values.
pub proof fn a_group_is_read_alike_in_any_company(
    a: DataView,
    b: DataView,
    numeric: Seq<Seq<char>>,
    group: Seq<char>,
    g: int,
)
    requires
        a.usable(numeric, seq![group]) is Ok,
        b.usable(numeric, seq![group]) is Ok,
        ({
            let groups = parted(a.key_column(group)->0, a.usable(numeric, seq![group])->Ok_0);
            0 <= g < groups.len() && a.same_group(b, numeric, group, groups[g].key)
        }),
    ensures
        ({
            let mine = parted(a.key_column(group)->0, a.usable(numeric, seq![group])->Ok_0);
            let theirs = parted(b.key_column(group)->0, b.usable(numeric, seq![group])->Ok_0);
            &&& exists|h: int| 0 <= h < theirs.len() && (#[trigger] theirs[h]).key == mine[g].key
            &&& forall|h: int, c: int|
                0 <= h < theirs.len() && (#[trigger] theirs[h]).key == mine[g].key && 0 <= c
                    < numeric.len() ==> gathered(a.column(#[trigger] numeric[c])->0, mine[g].rows)
                    == gathered(b.column(numeric[c])->0, theirs[h].rows)
        }),
{
    let x = a.key_column(group)->0;
    let y = b.key_column(group)->0;
    let rows = a.usable(numeric, seq![group])->Ok_0;
    let others = b.usable(numeric, seq![group])->Ok_0;
    let mine = parted(x, rows);
    let theirs = parted(y, others);
    let key = mine[g].key;
    lemma_rows_read(a, numeric, group, key, a.n_rows as nat);
    lemma_rows_read(b, numeric, group, key, b.n_rows as nat);
    let n = a.rows_of(group, key).len() as int;
    assert(a.rows_of(group, key).take(n) =~= a.rows_of(group, key));
    assert(b.rows_of(group, key).take(n) =~= b.rows_of(group, key));
    lemma_same_values(a, b, numeric, group, key, n);
    lemma_members(x, rows, key);
    lemma_members(y, others, key);
    assert(distinct(x, rows)[g] == key);
    assert(distinct(x, rows).contains(key));
    let h = choose|h: int| 0 <= h < distinct(y, others).len() && distinct(y, others)[h] == key;
    assert(theirs[h].key == key);
}

/// There are no more groups than rows.
pub proof fn no_more_groups_than_rows(column: KeyColumn, rows: Seq<usize>)
    ensures
        parted(column, rows).len() <= rows.len(),
{
    lemma_distinct(column, rows);
}

/// A relation has no more usable rows than rows.
pub proof fn usable_rows_are_no_more_than_rows(
    data: DataView,
    numeric: Seq<Seq<char>>,
    keys: Seq<Seq<char>>,
)
    ensures
        data.usable(numeric, keys) matches Ok(rows) ==> rows.len() <= data.n_rows,
{
    lemma_complete_rows(data, numeric, keys, data.n_rows as nat);
}

proof fn lemma_grown_group(groups: Seq<Members>, g: int, row: usize)
    requires
        0 <= g < groups.len(),
    ensures
        in_group_order(
            groups.update(g, Members { key: groups[g].key, rows: groups[g].rows.push(row) }),
        ).to_multiset() =~= in_group_order(groups).to_multiset().insert(row),
    decreases groups.len(),
{
    broadcast use vstd::seq_lib::group_to_multiset_ensures;

    let grown = Members { key: groups[g].key, rows: groups[g].rows.push(row) };
    let after = groups.update(g, grown);
    let t = groups.drop_last();
    vstd::seq_lib::lemma_multiset_commutative(in_group_order(t), groups.last().rows);
    vstd::seq_lib::lemma_multiset_commutative(
        in_group_order(after.drop_last()),
        after.last().rows,
    );
    if g == groups.len() - 1 {
        assert(after.drop_last() =~= t);
    } else {
        lemma_grown_group(t, g, row);
        assert(after.drop_last() =~= t.update(g, grown));
        assert(after.last() == groups.last());
    }
}

proof fn lemma_new_group(groups: Seq<Members>, key: Seq<char>, row: usize)
    ensures
        in_group_order(groups.push(Members { key, rows: seq![row] })).to_multiset()
            =~= in_group_order(groups).to_multiset().insert(row),
{
    broadcast use vstd::seq_lib::group_to_multiset_ensures;

    let after = groups.push(Members { key, rows: seq![row] });
    assert(after.drop_last() =~= groups);
    assert(in_group_order(after) =~= in_group_order(groups).push(row));
}

/// One row more: either a known group grows by it or a new group starts with it.
proof fn lemma_parted_step(column: KeyColumn, rows: Seq<usize>)
    requires
        rows.len() > 0,
    ensures
        ({
            let before = parted(column, rows.drop_last());
            let now = parted(column, rows);
            let l = label(column, rows.last());
            &&& keys_of(before).contains(l) ==> exists|g: int|
                0 <= g < before.len() && (#[trigger] before[g]).key == l && now == before.update(
                    g,
                    Members { key: l, rows: before[g].rows.push(rows.last()) },
                )
            &&& !keys_of(before).contains(l) ==> now == before.push(
                Members { key: l, rows: seq![rows.last()] },
            )
        }),
{
    let t = rows.drop_last();
    let before = parted(column, t);
    let now = parted(column, rows);
    let l = label(column, rows.last());
    let d = distinct(column, t);
    lemma_distinct(column, t);
    assert(keys_of(before) =~= d);
    if d.contains(l) {
        let g = choose|g: int| 0 <= g < d.len() && d[g] == l;
        assert(before[g].key == l);
        assert(now =~= before.update(g, Members { key: l, rows: before[g].rows.push(rows.last()) }))
            by {
            assert forall|h: int| 0 <= h < now.len() implies now[h] == before.update(
                g,
                Members { key: l, rows: before[g].rows.push(rows.last()) },
            )[h] by {
                if h != g {
                    if h < g {
                        assert(d[h] != d[g]);
                    } else {
                        assert(d[g] != d[h]);
                    }
                }
            }
        }
    } else {
        lemma_members(column, t, l);
        assert(members(column, t, l) =~= Seq::<usize>::empty());
        assert(now =~= before.push(Members { key: l, rows: seq![rows.last()] })) by {
            assert forall|h: int| 0 <= h < now.len() implies now[h] == before.push(
                Members { key: l, rows: seq![rows.last()] },
            )[h] by {
                if h < before.len() {
                    assert(d[h] != l) by {
                        if d[h] == l {
                            assert(d.contains(l));
                        }
                    }
                } else {
                    assert(members(column, rows, l) =~= seq![rows.last()]);
                }
            }
        }
    }
}

/// Parting the rows into groups and reading them group after group meets every row
/// exactly as often as it stands in the relation: none is dropped and none is doubled.
pub proof fn no_row_is_lost_or_doubled_by_grouping(column: KeyColumn, rows: Seq<usize>)
    ensures
        in_group_order(parted(column, rows)).to_multiset() == rows.to_multiset(),
        in_group_order(parted(column, rows)).len() == rows.len(),
    decreases rows.len(),
{
    broadcast use vstd::seq_lib::group_to_multiset_ensures;

    if rows.len() == 0 {
        assert(parted(column, rows) =~= Seq::<Members>::empty());
        assert(in_group_order(parted(column, rows)) =~= rows);
    } else {
        let t = rows.drop_last();
        no_row_is_lost_or_doubled_by_grouping(column, t);
        lemma_parted_step(column, rows);
        let before = parted(column, t);
        let l = label(column, rows.last());
        if keys_of(before).contains(l) {
            let g = choose|g: int|
                0 <= g < before.len() && (#[trigger] before[g]).key == l && parted(column, rows)
                    == before.update(
                    g,
                    Members { key: l, rows: before[g].rows.push(rows.last()) },
                );
            lemma_grown_group(before, g, rows.last());
        } else {
            lemma_new_group(before, l, rows.last());
        }
        assert(rows =~= t.push(rows.last()));
        assert(in_group_order(parted(column, rows)).to_multiset() =~= rows.to_multiset());
        let a = in_group_order(parted(column, rows));
        assert(a.to_multiset().len() == a.len());
        assert(rows.to_multiset().len() == rows.len());
    }
}

proof fn lemma_group_numbers(groups: Seq<Members>)
    requires
        groups.len() <= usize::MAX,
    ensures
        group_numbers(groups).len() == in_group_order(groups).len(),
        forall|i: int|
            0 <= i < group_numbers(groups).len() ==> (#[trigger] group_numbers(groups)[i])
                < groups.len() && groups[group_numbers(groups)[i] as int].rows.contains(
                in_group_order(groups)[i],
            ),
    decreases groups.len(),
{
    if groups.len() > 0 {
        let t = groups.drop_last();
        lemma_group_numbers(t);
        let a = group_numbers(groups);
        let b = in_group_order(groups);
        assert forall|i: int| 0 <= i < a.len() implies (#[trigger] a[i]) < groups.len()
            && groups[a[i] as int].rows.contains(b[i]) by {
            let m = group_numbers(t).len();
            if i < m {
                assert(a[i] == group_numbers(t)[i]);
                assert(b[i] == in_group_order(t)[i]);
                assert(t[a[i] as int] == groups[a[i] as int]);
            } else {
                assert(groups.last().rows[i - m] == b[i]);
            }
        }
    }
}

/// Read group after group, each row carries the number of the group that holds it.
pub proof fn each_row_carries_the_number_of_its_group(groups: Seq<Members>, i: int)
    requires
        groups.len() <= usize::MAX,
        0 <= i < in_group_order(groups).len(),
    ensures
        group_numbers(groups).len() == in_group_order(groups).len(),
        group_numbers(groups)[i] < groups.len(),
        groups[group_numbers(groups)[i] as int].rows.contains(in_group_order(groups)[i]),
{
    lemma_group_numbers(groups);
}

proof fn lemma_order_within(groups: Seq<Members>, n: int)
    requires
        groups_within(groups, n),
    ensures
        rows_within(in_group_order(groups), n),
    decreases groups.len(),
{
    if groups.len() > 0 {
        let t = groups.drop_last();
        assert forall|g: int| 0 <= g < t.len() implies rows_within(
            (#[trigger] t[g]).rows,
            n,
        ) by {
            assert(t[g] == groups[g]);
        }
        lemma_order_within(t, n);
        assert(rows_within(groups[groups.len() - 1].rows, n));
    }
}

proof fn lemma_parted_within(column: KeyColumn, rows: Seq<usize>, n: int)
    requires
        rows_within(rows, n),
    ensures
        groups_within(parted(column, rows), n),
{
    assert forall|g: int| 0 <= g < parted(column, rows).len() implies rows_within(
        (#[trigger] parted(column, rows)[g]).rows,
        n,
    ) by {
        let key = distinct(column, rows)[g];
        lemma_members(column, rows, key);
        let m = members(column, rows, key);
        assert forall|i: int| 0 <= i < m.len() implies (#[trigger] m[i]) < n by {
            let j = choose|j: int| 0 <= j < rows.len() && rows[j] == m[i];
            assert(rows[j] < n);
        }
    }
}

impl DataView {
    /// A relation of `n_rows` rows and no columns.
    pub fn new(n_rows: usize) -> (r: DataView)
        requires
            n_rows <= usize::MAX / 4,
        ensures
            r.wf(),
            r.n_rows == n_rows,
            r.numeric@.len() == 0,
            r.keys@.len() == 0,
    {
        DataView { n_rows, numeric: Vec::new(), keys: Vec::new() }
    }

    /// Adds a column of numbers; one of another length is refused.
    pub fn add_numeric(&mut self, column: NumericColumn) -> (r: BayesResult<()>)
        requires
            old(self).wf(),
        ensures
            final(self).wf(),
            final(self).n_rows == old(self).n_rows,
            final(self).keys == old(self).keys,
            r is Ok <==> column.values@.len() == old(self).n_rows && column.valid@.len() == old(
                self,
            ).n_rows,
            r is Ok ==> final(self).numeric@ == old(self).numeric@.push(column),
            r matches Err(e) ==> final(self).numeric == old(self).numeric && e@
                == Fault::DimensionMismatch(
                "column '"@ + column.name@ + "' does not have one entry per row"@,
            ),
    {
        if column.values.len() != self.n_rows || column.valid.len() != self.n_rows {
            return Err(
                BayesError::DimensionMismatch(
                    "column '".to_owned().concat(column.name.as_str()).concat(
                        "' does not have one entry per row",
                    ),
                ),
            );
        }
        self.numeric.push(column);
        Ok(())
    }

    /// Adds a column of keys; one of another length is refused.
    pub fn add_key(&mut self, column: KeyColumn) -> (r: BayesResult<()>)
        requires
            old(self).wf(),
        ensures
            final(self).wf(),
            final(self).n_rows == old(self).n_rows,
            final(self).numeric == old(self).numeric,
            r is Ok <==> column.values@.len() == old(self).n_rows && column.valid@.len() == old(
                self,
            ).n_rows,
            r is Ok ==> final(self).keys@ == old(self).keys@.push(column),
            r matches Err(e) ==> final(self).keys == old(self).keys && e@
                == Fault::DimensionMismatch(
                "column '"@ + column.name@ + "' does not have one entry per row"@,
            ),
    {
        if column.values.len() != self.n_rows || column.valid.len() != self.n_rows {
            return Err(
                BayesError::DimensionMismatch(
                    "column '".to_owned().concat(column.name.as_str()).concat(
                        "' does not have one entry per row",
                    ),
                ),
            );
        }
        self.keys.push(column);
        Ok(())
    }

    /// The number column of a name.
    pub fn numeric(&self, name: &str) -> (r: BayesResult<&NumericColumn>)
        requires
            self.wf(),
        ensures
            match r {
                Ok(c) => self.column(name@) == Some(*c) && c.values@.len() == self.n_rows
                    && c.valid@.len() == self.n_rows,
                Err(e) => self.column(name@) is None && e@ == self.no_column(name@),
            },
    {
        let mut k: usize = 0;
        let mut names: Vec<String> = Vec::new();
        while k < self.numeric.len()
            invariant
                k <= self.numeric@.len(),
                self.wf(),
                names@.len() == k,
                forall|i: int| 0 <= i < k ==> (#[trigger] names@[i])@ == self.numeric@[i].name@,
                self.column(name@) == numeric_from(self.numeric@, name@, k as int),
            decreases self.numeric@.len() - k,
        {
            if same_text(self.numeric[k].name.as_str(), name) {
                return Ok(&self.numeric[k]);
            }
            names.push(self.numeric[k].name.clone());
            k += 1;
        }
        proof {
            assert(crate::text::texts(names@) =~= numeric_names(self.numeric@));
        }
        Err(BayesError::MissingColumn { name: name.to_owned(), available: names })
    }

    /// The key column of a name.
    pub fn key(&self, name: &str) -> (r: BayesResult<&KeyColumn>)
        requires
            self.wf(),
        ensures
            match r {
                Ok(c) => self.key_column(name@) == Some(*c) && c.values@.len() == self.n_rows
                    && c.valid@.len() == self.n_rows,
                Err(e) => self.key_column(name@) is None && e@ == self.no_key(name@),
            },
    {
        let mut k: usize = 0;
        let mut names: Vec<String> = Vec::new();
        while k < self.keys.len()
            invariant
                k <= self.keys@.len(),
                self.wf(),
                names@.len() == k,
                forall|i: int| 0 <= i < k ==> (#[trigger] names@[i])@ == self.keys@[i].name@,
                self.key_column(name@) == key_from(self.keys@, name@, k as int),
            decreases self.keys@.len() - k,
        {
            if same_text(self.keys[k].name.as_str(), name) {
                return Ok(&self.keys[k]);
            }
            names.push(self.keys[k].name.clone());
            k += 1;
        }
        proof {
            assert(crate::text::texts(names@) =~= key_names(self.keys@));
        }
        Err(BayesError::MissingColumn { name: name.to_owned(), available: names })
    }

    /// The number columns of several names.
    pub fn numerics(&self, names: &Vec<String>) -> (r: BayesResult<Vec<&NumericColumn>>)
        requires
            self.wf(),
        ensures
            match r {
                Ok(v) => v@.len() == names@.len() && forall|i: int|
                    0 <= i < v@.len() ==> self.column(names@[i]@) == Some(*(#[trigger] v@[i]))
                        && v@[i].values@.len() == self.n_rows && v@[i].valid@.len() == self.n_rows,
                Err(e) => exists|k: int|
                    0 <= k < names@.len() && self.column((#[trigger] names@[k])@) is None && e@
                        == self.no_column(names@[k]@) && forall|i: int|
                        0 <= i < k ==> self.column((#[trigger] names@[i])@) is Some,
            },
    {
        let mut out: Vec<&NumericColumn> = Vec::new();
        let mut k: usize = 0;
        while k < names.len()
            invariant
                k <= names@.len(),
                self.wf(),
                out@.len() == k,
                forall|i: int|
                    0 <= i < k ==> self.column(names@[i]@) == Some(*(#[trigger] out@[i]))
                        && out@[i].values@.len() == self.n_rows && out@[i].valid@.len()
                        == self.n_rows,
            decreases names@.len() - k,
        {
            match self.numeric(names[k].as_str()) {
                Ok(c) => {
                    out.push(c);
                },
                Err(e) => {
                    proof {
                        assert forall|i: int| 0 <= i < k implies self.column(
                            (#[trigger] names@[i])@,
                        ) is Some by {
                            assert(self.column(names@[i]@) == Some(*out@[i]));
                        }
                    }
                    return Err(e);
                },
            }
            k += 1;
        }
        Ok(out)
    }

    /// The rows in which no named column is absent.
    pub fn usable_rows(&self, numeric: &Vec<String>, keys: &Vec<String>) -> (r: BayesResult<
        Vec<usize>,
    >)
        requires
            self.wf(),
        ensures
            crate::errors::outcome(r) == self.usable(
                crate::text::texts(numeric@),
                crate::text::texts(keys@),
            ),
            r matches Ok(rows) ==> {
                &&& rows_within(rows@, self.n_rows as int)
                &&& forall|i: int|
                    0 <= i < numeric@.len() ==> self.column((#[trigger] numeric@[i])@) is Some
                &&& forall|i: int|
                    0 <= i < keys@.len() ==> self.key_column((#[trigger] keys@[i])@) is Some
            },
    {
        let ghost a = crate::text::texts(numeric@);
        let ghost b = crate::text::texts(keys@);
        let ghost checks = self.presence(a, b);
        let columns = match self.numerics(numeric) {
            Ok(columns) => columns,
            Err(e) => {
                proof {
                    let k = choose|k: int|
                        0 <= k < numeric@.len() && self.column((#[trigger] numeric@[k])@) is None
                            && e@ == self.no_column(numeric@[k]@) && forall|i: int|
                            0 <= i < k ==> self.column((#[trigger] numeric@[i])@) is Some;
                    assert forall|i: int| 0 <= i < k implies (#[trigger] checks[i]) is None by {
                        assert(self.column(numeric@[i]@) is Some);
                    }
                    lemma_first_fault(checks, k);
                }
                return Err(e);
            },
        };
        proof {
            assert forall|i: int| 0 <= i < numeric@.len() implies self.column(
                (#[trigger] numeric@[i])@,
            ) is Some by {
                assert(self.column(numeric@[i]@) == Some(*columns@[i]));
            }
        }
        let mut labels: Vec<&KeyColumn> = Vec::new();
        let mut k: usize = 0;
        while k < keys.len()
            invariant
                k <= keys@.len(),
                self.wf(),
                a == crate::text::texts(numeric@),
                b == crate::text::texts(keys@),
                checks == self.presence(a, b),
                forall|i: int|
                    0 <= i < numeric@.len() ==> self.column((#[trigger] numeric@[i])@) is Some,
                labels@.len() == k,
                forall|i: int|
                    0 <= i < k ==> self.key_column(keys@[i]@) == Some(*(#[trigger] labels@[i]))
                        && labels@[i].valid@.len() == self.n_rows,
            decreases keys@.len() - k,
        {
            match self.key(keys[k].as_str()) {
                Ok(c) => {
                    labels.push(c);
                },
                Err(e) => {
                    proof {
                        assert forall|i: int| 0 <= i < a.len() + k implies (
                        #[trigger] checks[i]) is None by {
                            if i < a.len() {
                                assert(self.column(numeric@[i]@) is Some);
                            } else {
                                assert(self.key_column(keys@[i - a.len()]@) == Some(
                                    *labels@[i - a.len()],
                                ));
                            }
                        }
                        lemma_first_fault(checks, a.len() + k);
                    }
                    return Err(e);
                },
            }
            k += 1;
        }
        proof {
            assert forall|i: int| 0 <= i < checks.len() implies (#[trigger] checks[i]) is None by {
                if i < a.len() {
                    assert(self.column(numeric@[i]@) is Some);
                } else {
                    assert(self.key_column(keys@[i - a.len()]@) == Some(*labels@[i - a.len()]));
                }
            }
            lemma_first_fault(checks, checks.len() as int);
            assert forall|i: int| 0 <= i < keys@.len() implies self.key_column(
                (#[trigger] keys@[i])@,
            ) is Some by {
                assert(self.key_column(keys@[i]@) == Some(*labels@[i]));
            }
        }
        let mut rows: Vec<usize> = Vec::new();
        let mut row: usize = 0;
        while row < self.n_rows
            invariant
                row <= self.n_rows,
                a == crate::text::texts(numeric@),
                b == crate::text::texts(keys@),
                columns@.len() == numeric@.len(),
                labels@.len() == keys@.len(),
                forall|i: int|
                    0 <= i < columns@.len() ==> self.column(numeric@[i]@) == Some(
                        *(#[trigger] columns@[i]),
                    ) && columns@[i].valid@.len() == self.n_rows,
                forall|i: int|
                    0 <= i < labels@.len() ==> self.key_column(keys@[i]@) == Some(
                        *(#[trigger] labels@[i]),
                    ) && labels@[i].valid@.len() == self.n_rows,
                rows@ == self.complete_rows(a, b, row as nat),
            decreases self.n_rows - row,
        {
            let mut complete = true;
            let mut k: usize = 0;
            while k < columns.len()
                invariant
                    k <= columns@.len(),
                    row < self.n_rows,
                    forall|i: int|
                        0 <= i < columns@.len() ==> (#[trigger] columns@[i]).valid@.len()
                            == self.n_rows,
                    complete == forall|i: int|
                        0 <= i < k ==> (#[trigger] columns@[i]).valid@[row as int],
                decreases columns@.len() - k,
            {
                if !columns[k].valid[row] {
                    complete = false;
                }
                k += 1;
            }
            let mut labelled = true;
            let mut k: usize = 0;
            while k < labels.len()
                invariant
                    k <= labels@.len(),
                    row < self.n_rows,
                    forall|i: int|
                        0 <= i < labels@.len() ==> (#[trigger] labels@[i]).valid@.len()
                            == self.n_rows,
                    labelled == forall|i: int|
                        0 <= i < k ==> (#[trigger] labels@[i]).valid@[row as int],
                decreases labels@.len() - k,
            {
                if !labels[k].valid[row] {
                    labelled = false;
                }
                k += 1;
            }
            proof {
                assert((complete && labelled) == self.complete(a, b, row as int)) by {
                    if complete {
                        assert forall|i: int| 0 <= i < a.len() implies self.column(
                            #[trigger] a[i],
                        )->0.valid@[row as int] by {
                            assert(columns@[i].valid@[row as int]);
                        }
                    } else {
                        let i = choose|i: int|
                            0 <= i < columns@.len() && !(
                            #[trigger] columns@[i]).valid@[row as int];
                        assert(!self.column(a[i])->0.valid@[row as int]);
                    }
                    if labelled {
                        assert forall|i: int| 0 <= i < b.len() implies self.key_column(
                            #[trigger] b[i],
                        )->0.valid@[row as int] by {
                            assert(labels@[i].valid@[row as int]);
                        }
                    } else {
                        let i = choose|i: int|
                            0 <= i < labels@.len() && !(
                            #[trigger] labels@[i]).valid@[row as int];
                        assert(!self.key_column(b[i])->0.valid@[row as int]);
                    }
                }
            }
            if complete && labelled {
                rows.push(row);
            }
            row += 1;
        }
        proof {
            lemma_complete_rows(*self, a, b, self.n_rows as nat);
        }
        Ok(rows)
    }

    /// The groups of the rows.
    pub fn group_rows(&self, group: &Option<String>, rows: &Vec<usize>) -> (r: BayesResult<
        Vec<Group>,
    >)
        requires
            self.wf(),
            rows_within(rows@, self.n_rows as int),
        ensures
            match r {
                Ok(v) => self.groups(name_of(*group), rows@) == Ok::<_, Fault>(groups_of(v@))
                    && groups_within(groups_of(v@), self.n_rows as int),
                Err(e) => self.groups(name_of(*group), rows@) == Err::<Seq<Members>, _>(e@),
            },
    {
        let name = match group {
            Some(name) => name,
            None => {
                let mut out: Vec<Group> = Vec::new();
                out.push(Group { key: global_group_key().to_owned(), rows: rows.clone() });
                proof {
                    assert(groups_of(out@) =~= seq![
                        Members { key: crate::types::global_group(), rows: rows@ },
                    ]);
                }
                return Ok(out);
            },
        };
        let column = match self.key(name.as_str()) {
            Ok(column) => column,
            Err(e) => {
                return Err(e);
            },
        };
        let mut out: Vec<Group> = Vec::new();
        let mut k: usize = 0;
        proof {
            assert(groups_of(out@) =~= parted(*column, rows@.take(0)));
        }
        while k < rows.len()
            invariant
                k <= rows@.len(),
                rows_within(rows@, self.n_rows as int),
                column.values@.len() == self.n_rows,
                groups_of(out@) == parted(*column, rows@.take(k as int)),
            decreases rows@.len() - k,
        {
            let row: usize = rows[k];
            let ghost so_far = rows@.take(k + 1);
            let ghost before = groups_of(out@);
            let ghost l = label(*column, row);
            proof {
                assert(so_far.drop_last() =~= rows@.take(k as int));
                assert(so_far.last() == row);
                lemma_parted_step(*column, so_far);
                lemma_distinct(*column, rows@.take(k as int));
            }
            let mut g: usize = 0;
            while g < out.len() && !same_text(out[g].key.as_str(), column.values[row].as_str())
                invariant
                    g <= out@.len(),
                    row < column.values@.len(),
                    l == label(*column, row),
                    forall|h: int| 0 <= h < g ==> (#[trigger] out@[h])@.key != l,
                decreases out@.len() - g,
            {
                g += 1;
            }
            if g < out.len() {
                proof {
                    assert(keys_of(before)[g as int] == l);
                }
                out[g].rows.push(row);
                proof {
                    let h = choose|h: int|
                        0 <= h < before.len() && (#[trigger] before[h]).key == l && parted(
                            *column,
                            so_far,
                        ) == before.update(
                            h,
                            Members { key: l, rows: before[h].rows.push(row) },
                        );
                    let d = distinct(*column, rows@.take(k as int));
                    assert(d[h] == l && d[g as int] == l);
                    assert(h == g);
                    assert(groups_of(out@) =~= before.update(
                        h,
                        Members { key: l, rows: before[h].rows.push(row) },
                    ));
                }
            } else {
                proof {
                    assert(!keys_of(before).contains(l));
                }
                let mut first: Vec<usize> = Vec::new();
                first.push(row);
                out.push(Group { key: column.values[row].clone(), rows: first });
                proof {
                    assert(first@ =~= seq![row]);
                    assert(groups_of(out@) =~= before.push(Members { key: l, rows: seq![row] }));
                }
            }
            k += 1;
        }
        proof {
            assert(rows@.take(k as int) =~= rows@);
            lemma_parted_within(*column, rows@, self.n_rows as int);
        }
        Ok(out)
    }
}

/// The text of an optional name.
pub open spec fn name_of(name: Option<String>) -> Option<Seq<char>> {
    match name {
        Some(s) => Some(s@),
        None => None,
    }
}

/// Refuses groups of which one has the reserved key.
pub fn validate_group_keys(groups: &Vec<Group>) -> (r: BayesResult<()>)
    ensures
        match r {
            Ok(_) => group_keys_fault(groups_of(groups@)) is None,
            Err(e) => group_keys_fault(groups_of(groups@)) == Some(e@),
        },
{
    let ghost checks = Seq::new(
        groups_of(groups@).len(),
        |i: int| crate::types::group_key_fault(groups_of(groups@)[i].key),
    );
    let mut k: usize = 0;
    while k < groups.len()
        invariant
            k <= groups@.len(),
            checks.len() == groups@.len(),
            forall|i: int|
                0 <= i < groups@.len() ==> (#[trigger] checks[i]) == crate::types::group_key_fault(
                    groups@[i]@.key,
                ),
            group_keys_fault(groups_of(groups@)) == first_fault(checks),
            forall|i: int| 0 <= i < k ==> (#[trigger] checks[i]) is None,
        decreases groups@.len() - k,
    {
        match validate_group_key(groups[k].key.as_str()) {
            Ok(_) => {},
            Err(e) => {
                proof {
                    lemma_first_fault(checks, k as int);
                }
                return Err(e);
            },
        }
        k += 1;
    }
    proof {
        lemma_first_fault(checks, k as int);
    }
    Ok(())
}

/// The keys of several groups.
pub fn group_keys(groups: &Vec<Group>) -> (r: Vec<String>)
    ensures
        crate::text::texts(r@) == keys_of(groups_of(groups@)),
{
    let mut out: Vec<String> = Vec::new();
    let mut k: usize = 0;
    while k < groups.len()
        invariant
            k <= groups@.len(),
            out@.len() == k,
            forall|i: int| 0 <= i < k ==> (#[trigger] out@[i])@ == groups@[i].key@,
        decreases groups@.len() - k,
    {
        out.push(groups[k].key.clone());
        k += 1;
    }
    proof {
        assert(crate::text::texts(out@) =~= keys_of(groups_of(groups@)));
    }
    out
}

/// The rows of all groups, group after group, and of each the number of its group.
pub fn flatten(groups: &Vec<Group>, n_rows: usize) -> (r: (Vec<usize>, Vec<usize>))
    requires
        groups_within(groups_of(groups@), n_rows as int),
    ensures
        r.0@ == in_group_order(groups_of(groups@)),
        r.1@ == group_numbers(groups_of(groups@)),
        rows_within(r.0@, n_rows as int),
        r.1@.len() == r.0@.len(),
        forall|i: int| 0 <= i < r.1@.len() ==> (#[trigger] r.1@[i]) < groups@.len(),
{
    let ghost all = groups_of(groups@);
    let mut order: Vec<usize> = Vec::new();
    let mut numbers: Vec<usize> = Vec::new();
    let mut g: usize = 0;
    while g < groups.len()
        invariant
            g <= groups@.len(),
            all == groups_of(groups@),
            order@ == in_group_order(all.take(g as int)),
            numbers@ == group_numbers(all.take(g as int)),
        decreases groups@.len() - g,
    {
        let ghost before = order@;
        let ghost marks = numbers@;
        let mut k: usize = 0;
        while k < groups[g as usize].rows.len()
            invariant
                g < groups@.len(),
                k <= groups@[g as int].rows@.len(),
                order@ == before + groups@[g as int].rows@.take(k as int),
                numbers@ == marks + Seq::new(k as nat, |i: int| g),
            decreases groups@[g as int].rows@.len() - k,
        {
            order.push(groups[g].rows[k]);
            numbers.push(g);
            k += 1;
            proof {
                assert(order@ =~= before + groups@[g as int].rows@.take(k as int));
                assert(numbers@ =~= marks + Seq::new(k as nat, |i: int| g));
            }
        }
        proof {
            assert(all.take(g + 1).drop_last() =~= all.take(g as int));
            assert(groups@[g as int].rows@.take(k as int) =~= groups@[g as int].rows@);
            assert(numbers@ =~= group_numbers(all.take(g + 1)));
        }
        g += 1;
    }
    proof {
        assert(all.take(g as int) =~= all);
        lemma_order_within(all, n_rows as int);
        lemma_group_numbers(all);
    }
    (order, numbers)
}

/// The values of a column at several rows.
pub fn gather(column: &NumericColumn, rows: &Vec<usize>) -> (r: Vec<Double>)
    requires
        rows_within(rows@, column.values@.len() as int),
    ensures
        r@ == gathered(*column, rows@),
{
    let mut out: Vec<Double> = Vec::new();
    let mut k: usize = 0;
    while k < rows.len()
        invariant
            k <= rows@.len(),
            rows_within(rows@, column.values@.len() as int),
            out@ == gathered(*column, rows@).take(k as int),
        decreases rows@.len() - k,
    {
        out.push(column.values[rows[k]]);
        k += 1;
        proof {
            assert(out@ =~= gathered(*column, rows@).take(k as int));
        }
    }
    proof {
        assert(out@ =~= gathered(*column, rows@));
    }
    out
}

/// The values of several columns at several rows, column by column.
pub open spec fn gathered_all(columns: Seq<&NumericColumn>, rows: Seq<usize>) -> Seq<Seq<Double>> {
    Seq::new(columns.len(), |i: int| gathered(*columns[i], rows))
}

/// The lists that a sequence of vectors holds.
pub open spec fn lists(s: Seq<Vec<Double>>) -> Seq<Seq<Double>> {
    Seq::new(s.len(), |i: int| s[i]@)
}

/// The values of several columns at several rows.
pub fn gather_all(columns: &Vec<&NumericColumn>, rows: &Vec<usize>, n_rows: usize) -> (r: Vec<
    Vec<Double>,
>)
    requires
        rows_within(rows@, n_rows as int),
        forall|i: int|
            0 <= i < columns@.len() ==> (#[trigger] columns@[i]).values@.len() == n_rows,
    ensures
        lists(r@) == gathered_all(columns@, rows@),
{
    let mut out: Vec<Vec<Double>> = Vec::new();
    let mut k: usize = 0;
    while k < columns.len()
        invariant
            k <= columns@.len(),
            rows_within(rows@, n_rows as int),
            forall|i: int|
                0 <= i < columns@.len() ==> (#[trigger] columns@[i]).values@.len() == n_rows,
            out@.len() == k,
            forall|i: int|
                0 <= i < k ==> (#[trigger] out@[i])@ == gathered(*columns@[i], rows@),
        decreases columns@.len() - k,
    {
        out.push(gather(columns[k], rows));
        k += 1;
    }
    proof {
        assert(lists(out@) =~= gathered_all(columns@, rows@));
    }
    out
}

} // verus!
