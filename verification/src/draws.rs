//! The identities of the parameters that draws are reported under.
use crate::types::global_group_key;
use vstd::prelude::*;

verus! {

/// A parameter: its name, and the group it belongs to.
#[derive(Debug)]
pub struct ParamName {
    pub group_id: String,
    pub name: String,
}

/// What a [`ParamName`] says.
#[verifier::ext_equal]
pub struct ParamId {
    pub group: Seq<char>,
    pub name: Seq<char>,
}

impl View for ParamName {
    type V = ParamId;

    open spec fn view(&self) -> ParamId {
        ParamId { group: self.group_id@, name: self.name@ }
    }
}

/// The identities that a sequence of parameters holds.
pub open spec fn ids(s: Seq<ParamName>) -> Seq<ParamId> {
    Seq::new(s.len(), |i: int| s[i]@)
}

impl ParamId {
    /// A parameter that belongs to no group.
    pub open spec fn global(name: Seq<char>) -> ParamId {
        ParamId { group: crate::types::global_group(), name }
    }

    /// A parameter of a group.
    pub open spec fn grouped(group: Seq<char>, name: Seq<char>) -> ParamId {
        ParamId { group, name }
    }
}

/// The name of the coefficient of a column.
pub open spec fn coefficient_name(column: Seq<char>) -> Seq<char> {
    "beta["@ + column + "]"@
}

/// One coefficient per column.
pub open spec fn coefficients(group: Seq<char>, columns: Seq<Seq<char>>) -> Seq<ParamId> {
    Seq::new(columns.len(), |i: int| ParamId { group, name: coefficient_name(columns[i]) })
}

/// One parameter per group.
pub open spec fn one_each(keys: Seq<Seq<char>>, name: Seq<char>) -> Seq<ParamId> {
    Seq::new(keys.len(), |i: int| ParamId::grouped(keys[i], name))
}

/// Two parameters per group, group after group.
pub open spec fn two_each(keys: Seq<Seq<char>>, first: Seq<char>, second: Seq<char>) -> Seq<
    ParamId,
> {
    Seq::new(
        keys.len() * 2,
        |i: int|
            ParamId::grouped(
                keys[i / 2],
                if i % 2 == 0 {
                    first
                } else {
                    second
                },
            ),
    )
}

impl ParamName {
    pub fn global(name: &str) -> (r: ParamName)
        ensures
            r@ == ParamId::global(name@),
    {
        ParamName { group_id: global_group_key().to_owned(), name: name.to_owned() }
    }

    pub fn grouped(group: &str, name: &str) -> (r: ParamName)
        ensures
            r@ == ParamId::grouped(group@, name@),
    {
        ParamName { group_id: group.to_owned(), name: name.to_owned() }
    }
}

/// Appends one parameter that belongs to no group.
pub fn push_global(params: &mut Vec<ParamName>, name: &str)
    ensures
        ids(final(params)@) == ids(old(params)@) + seq![ParamId::global(name@)],
{
    params.push(ParamName::global(name));
    proof {
        assert(ids(params@) =~= ids(old(params)@) + seq![ParamId::global(name@)]);
    }
}

/// Appends one parameter of a group.
pub fn push_grouped(params: &mut Vec<ParamName>, group: &str, name: &str)
    ensures
        ids(final(params)@) == ids(old(params)@) + seq![ParamId::grouped(group@, name@)],
{
    params.push(ParamName::grouped(group, name));
    proof {
        assert(ids(params@) =~= ids(old(params)@) + seq![ParamId::grouped(group@, name@)]);
    }
}

/// Appends one coefficient per column.
pub fn push_coefficients(params: &mut Vec<ParamName>, group: &str, columns: &Vec<String>)
    ensures
        ids(final(params)@) == ids(old(params)@) + coefficients(
            group@,
            crate::text::texts(columns@),
        ),
{
    let ghost before = ids(params@);
    let ghost all = coefficients(group@, crate::text::texts(columns@));
    let mut k: usize = 0;
    proof {
        assert(ids(params@) =~= before + all.take(0));
    }
    while k < columns.len()
        invariant
            k <= columns@.len(),
            all == coefficients(group@, crate::text::texts(columns@)),
            ids(params@) == before + all.take(k as int),
        decreases columns@.len() - k,
    {
        let name = "beta[".to_owned().concat(columns[k].as_str()).concat("]");
        push_grouped(params, group, name.as_str());
        k += 1;
        proof {
            assert(ids(params@) =~= before + all.take(k as int));
        }
    }
    proof {
        assert(all.take(k as int) =~= all);
    }
}

/// Appends one parameter per group.
pub fn push_one_each(params: &mut Vec<ParamName>, keys: &Vec<String>, name: &str)
    ensures
        ids(final(params)@) == ids(old(params)@) + one_each(crate::text::texts(keys@), name@),
{
    let ghost before = ids(params@);
    let ghost all = one_each(crate::text::texts(keys@), name@);
    let mut k: usize = 0;
    proof {
        assert(ids(params@) =~= before + all.take(0));
    }
    while k < keys.len()
        invariant
            k <= keys@.len(),
            all == one_each(crate::text::texts(keys@), name@),
            ids(params@) == before + all.take(k as int),
        decreases keys@.len() - k,
    {
        push_grouped(params, keys[k].as_str(), name);
        k += 1;
        proof {
            assert(ids(params@) =~= before + all.take(k as int));
        }
    }
    proof {
        assert(all.take(k as int) =~= all);
    }
}

/// Appends two parameters per group.
pub fn push_two_each(params: &mut Vec<ParamName>, keys: &Vec<String>, first: &str, second: &str)
    ensures
        ids(final(params)@) == ids(old(params)@) + two_each(
            crate::text::texts(keys@),
            first@,
            second@,
        ),
{
    let ghost before = ids(params@);
    let ghost all = two_each(crate::text::texts(keys@), first@, second@);
    let mut k: usize = 0;
    proof {
        assert(ids(params@) =~= before + all.take(0));
    }
    while k < keys.len()
        invariant
            k <= keys@.len(),
            all == two_each(crate::text::texts(keys@), first@, second@),
            ids(params@) == before + all.take(2 * k),
        decreases keys@.len() - k,
    {
        push_grouped(params, keys[k].as_str(), first);
        push_grouped(params, keys[k].as_str(), second);
        proof {
            assert((2 * k) / 2 == k && (2 * k + 1) / 2 == k);
            assert(ids(params@) =~= before + all.take(2 * (k + 1)));
        }
        k += 1;
    }
    proof {
        assert(all.take(2 * k) =~= all);
    }
}

} // verus!
