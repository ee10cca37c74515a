//! The options of a request: slots with values, looked up by name.
//!
//! Every lookup says what it returns for every value a slot can hold, and names the slot
//! by its full path when it refuses one.
use crate::double::Double;
use crate::errors::{BayesError, BayesResult, Fault};
use crate::text::{decimal, join, reads_as, same_text, suggest};
use vstd::prelude::*;

verus! {

/// What a slot holds.
#[derive(Debug)]
pub enum Value {
    Text(String),
    Number(Double),
    List(Vec<String>),
    Table(Vec<Entry>),
    /// Anything else a request can be written with; no slot takes it.
    Other,
}

/// A slot and its value.
#[derive(Debug)]
pub struct Entry {
    pub name: String,
    pub value: Value,
}

/// The options of a request.
#[derive(Debug)]
pub struct Config {
    pub entries: Vec<Entry>,
}

/// One table of a request, with the path that leads to it.
pub struct Section<'a> {
    pub path: String,
    pub entries: Option<&'a Vec<Entry>>,
}

/// What a [`Section`] holds: the path before its slots, and the slots.
#[verifier::ext_equal]
pub struct Scope {
    pub path: Seq<char>,
    pub entries: Seq<Entry>,
}

impl<'a> View for Section<'a> {
    type V = Scope;

    open spec fn view(&self) -> Scope {
        Scope {
            path: self.path@,
            entries: match self.entries {
                Some(entries) => entries@,
                None => Seq::empty(),
            },
        }
    }
}

impl View for Config {
    type V = Scope;

    open spec fn view(&self) -> Scope {
        Scope { path: Seq::empty(), entries: self.entries@ }
    }
}

/// The value of the first slot of that name, from the slot numbered `k` on.
pub open spec fn find_from(entries: Seq<Entry>, name: Seq<char>, k: int) -> Option<Value>
    decreases entries.len() - k,
{
    if k < 0 || k >= entries.len() {
        None
    } else if entries[k].name@ == name {
        Some(entries[k].value)
    } else {
        find_from(entries, name, k + 1)
    }
}

/// The first slot, from the slot numbered `k` on, whose name is none of the known ones.
pub open spec fn stranger_from(
    entries: Seq<Entry>,
    known: Seq<Seq<char>>,
    k: int,
) -> Option<Seq<char>>
    decreases entries.len() - k,
{
    if k < 0 || k >= entries.len() {
        None
    } else if known.contains(entries[k].name@) {
        stranger_from(entries, known, k + 1)
    } else {
        Some(entries[k].name@)
    }
}

/// What an unknown slot is told.
pub open spec fn unknown_text(name: Seq<char>, known: Seq<Seq<char>>) -> Seq<char> {
    match crate::text::suggestion(name, known) {
        Some(best) => "unknown option; did you mean '"@ + best + "'?"@,
        None => "unknown option; expected one of "@ + crate::text::joined(known, ", "@),
    }
}

impl Scope {
    /// The value of a slot, where it is there.
    pub open spec fn slot(self, name: Seq<char>) -> Option<Value> {
        find_from(self.entries, name, 0)
    }

    /// The full path of a slot.
    pub open spec fn place(self, name: Seq<char>) -> Seq<char> {
        self.path + name
    }

    /// A slot refused with a sentence.
    pub open spec fn fault(self, name: Seq<char>, text: Seq<char>) -> Fault {
        Fault::config(self.place(name), text)
    }

    /// The fault of a section that holds a slot none of the known names names.
    pub open spec fn unknown_slot(self, known: Seq<Seq<char>>) -> Option<Fault> {
        match stranger_from(self.entries, known, 0) {
            Some(name) => Some(self.fault(name, unknown_text(name, known))),
            None => None,
        }
    }

    pub open spec fn optional_text(self, name: Seq<char>) -> Result<Option<Seq<char>>, Fault> {
        match self.slot(name) {
            None => Ok(None),
            Some(Value::Text(s)) => Ok(Some(s@)),
            Some(_) => Err(self.fault(name, "must be a string"@)),
        }
    }

    pub open spec fn required_text(self, name: Seq<char>) -> Result<Seq<char>, Fault> {
        match self.optional_text(name) {
            Ok(Some(s)) => Ok(s),
            Ok(None) => Err(self.fault(name, "is required"@)),
            Err(e) => Err(e),
        }
    }

    /// A list of names; one name alone is a list of one.
    pub open spec fn text_list(self, name: Seq<char>) -> Result<Seq<Seq<char>>, Fault> {
        match self.slot(name) {
            None => Ok(Seq::empty()),
            Some(Value::Text(s)) => Ok(seq![s@]),
            Some(Value::List(v)) => Ok(crate::text::texts(v@)),
            Some(_) => Err(self.fault(name, "must be a string or a list of strings"@)),
        }
    }

    /// One of the admitted words.
    pub open spec fn choice(
        self,
        name: Seq<char>,
        admitted: Seq<Seq<char>>,
        default: Seq<char>,
    ) -> Result<Seq<char>, Fault> {
        match self.optional_text(name) {
            Ok(None) => Ok(default),
            Ok(Some(s)) => if admitted.contains(s) {
                Ok(s)
            } else {
                Err(
                    self.fault(
                        name,
                        "expected one of "@ + crate::text::joined(admitted, ", "@) + ", got '"@ + s
                            + "'"@,
                    ),
                )
            },
            Err(e) => Err(e),
        }
    }

    /// A number that must be finite where it is given; only the default may be infinite.
    pub open spec fn number(self, name: Seq<char>, default: Double) -> Result<Double, Fault> {
        match self.slot(name) {
            None => Ok(default),
            Some(Value::Number(d)) => if d.finite() {
                Ok(d)
            } else {
                Err(
                    Fault::config_showing(self.place(name), "must be a finite number, got "@, d, ""@),
                )
            },
            Some(_) => Err(self.fault(name, "must be a number"@)),
        }
    }

    /// A number that must be greater than zero where it is given.
    pub open spec fn positive_number(self, name: Seq<char>, default: Double) -> Result<
        Double,
        Fault,
    > {
        match self.slot(name) {
            Some(Value::Number(d)) => if !d.finite() {
                self.number(name, default)
            } else if d.positive() {
                Ok(d)
            } else {
                Err(Fault::config_showing(self.place(name), "must be > 0, got "@, d, ""@))
            },
            _ => self.number(name, default),
        }
    }

    /// A number that must not be below zero where it is given.
    pub open spec fn non_negative_number(self, name: Seq<char>, default: Double) -> Result<
        Double,
        Fault,
    > {
        match self.slot(name) {
            Some(Value::Number(d)) => if !d.finite() {
                self.number(name, default)
            } else if d.scaled() >= 0 {
                Ok(d)
            } else {
                Err(Fault::config_showing(self.place(name), "must be >= 0, got "@, d, ""@))
            },
            _ => self.number(name, default),
        }
    }

    /// A whole number within bounds.
    pub open spec fn count_in(
        self,
        name: Seq<char>,
        default: usize,
        lowest: usize,
        highest: usize,
    ) -> Result<usize, Fault> {
        match self.slot(name) {
            None => Ok(default),
            Some(Value::Number(d)) => if d.count() is Some && lowest <= d.count()->0 <= highest {
                Ok(d.count()->0 as usize)
            } else {
                Err(
                    Fault::config_showing(
                        self.place(name),
                        "must be a whole number between "@ + crate::text::numeral(lowest as nat)
                            + " and "@ + crate::text::numeral(highest as nat) + ", got "@,
                        d,
                        ""@,
                    ),
                )
            },
            Some(_) => Err(self.fault(name, "must be a number"@)),
        }
    }

    /// A table with a number in one slot and a number above zero in another.
    pub open spec fn centre_and_spread(
        self,
        table: Seq<char>,
        centre: Seq<char>,
        centre_default: Double,
        spread: Seq<char>,
        spread_default: Double,
    ) -> Result<(Double, Double), Fault> {
        match self.table(table) {
            Err(f) => Err(f),
            Ok(inner) => if let Some(f) = inner.unknown_slot(seq![centre, spread]) {
                Err(f)
            } else if let Err(f) = inner.number(centre, centre_default) {
                Err(f)
            } else if let Err(f) = inner.positive_number(spread, spread_default) {
                Err(f)
            } else {
                Ok(
                    (
                        inner.number(centre, centre_default)->Ok_0,
                        inner.positive_number(spread, spread_default)->Ok_0,
                    ),
                )
            },
        }
    }

    /// A table whose only slot is a scale above zero.
    pub open spec fn scale(self, table: Seq<char>, default: Double) -> Result<Double, Fault> {
        match self.table(table) {
            Err(f) => Err(f),
            Ok(inner) => if let Some(f) = inner.unknown_slot(seq!["scale"@]) {
                Err(f)
            } else {
                inner.positive_number("scale"@, default)
            },
        }
    }

    /// Whether the Laplace engine is asked for, in any case of letters.
    pub open spec fn laplace_requested(self) -> Result<bool, Fault> {
        match self.optional_text("engine"@) {
            Ok(Some(engine)) => Ok(crate::text::small(engine) == "laplace"@),
            Ok(None) => Ok(false),
            Err(f) => Err(f),
        }
    }

    /// Whether draws from the prior are asked for.
    pub open spec fn prior_draws_requested(self) -> Result<bool, Fault> {
        match self.optional_text("sample_from"@) {
            Ok(Some(source)) => Ok(source == "prior"@),
            Ok(None) => Ok(false),
            Err(f) => Err(f),
        }
    }

    /// Whether a list of names is short enough for one parameter per name to be numbered.
    pub open spec fn list_fits(self, name: Seq<char>) -> bool {
        self.text_list(name) matches Ok(names) ==> names.len() <= usize::MAX / 4
    }

    /// A table inside this one; an absent one is empty.
    pub open spec fn table(self, name: Seq<char>) -> Result<Scope, Fault> {
        match self.slot(name) {
            None => Ok(Scope { path: self.place(name) + "."@, entries: Seq::empty() }),
            Some(Value::Table(v)) => Ok(Scope { path: self.place(name) + "."@, entries: v@ }),
            Some(_) => Err(self.fault(name, "must be a table of options"@)),
        }
    }
}

proof fn lemma_stranger(entries: Seq<Entry>, known: Seq<Seq<char>>, k: int)
    requires
        0 <= k <= entries.len(),
    ensures
        match stranger_from(entries, known, k) {
            Some(name) => !known.contains(name) && exists|i: int|
                k <= i < entries.len() && (#[trigger] entries[i]).name@ == name,
            None => forall|i: int|
                k <= i < entries.len() ==> known.contains((#[trigger] entries[i]).name@),
        },
    decreases entries.len() - k,
{
    if k < entries.len() {
        lemma_stranger(entries, known, k + 1);
    }
}

/// A section is refused for an unknown slot exactly when it holds a slot that is not
/// known, and the refusal carries that slot's full path.
pub proof fn an_unknown_slot_is_named_by_its_path(scope: Scope, known: Seq<Seq<char>>)
    ensures
        scope.unknown_slot(known) is None <==> forall|i: int|
            0 <= i < scope.entries.len() ==> known.contains((#[trigger] scope.entries[i]).name@),
        scope.unknown_slot(known) matches Some(fault) ==> exists|i: int|
            0 <= i < scope.entries.len() && !known.contains((#[trigger] scope.entries[i]).name@)
                && fault == Fault::config(
                scope.path + scope.entries[i].name@,
                unknown_text(scope.entries[i].name@, known),
            ),
{
    lemma_stranger(scope.entries, known, 0);
}

/// Whether the entry numbered `i` is the first of its name.
pub open spec fn first_at(entries: Seq<Entry>, name: Seq<char>, i: int) -> bool {
    &&& 0 <= i < entries.len()
    &&& entries[i].name@ == name
    &&& forall|j: int| 0 <= j < i ==> (#[trigger] entries[j]).name@ != name
}

/// What is written in a slot: the value of the first entry of that name.
pub open spec fn written(entries: Seq<Entry>, name: Seq<char>) -> Option<Value> {
    if exists|i: int| first_at(entries, name, i) {
        Some(entries[choose|i: int| first_at(entries, name, i)].value)
    } else {
        None
    }
}

/// The number written in a slot, or another where nothing is.
pub open spec fn number_or(entries: Seq<Entry>, name: Seq<char>, otherwise: Double) -> Double {
    match written(entries, name) {
        Some(Value::Number(d)) => d,
        _ => otherwise,
    }
}

/// The text written in a slot, if any.
pub open spec fn text_of(entries: Seq<Entry>, name: Seq<char>) -> Option<Seq<char>> {
    match written(entries, name) {
        Some(Value::Text(s)) => Some(s@),
        _ => None,
    }
}

/// The texts written in a slot: several, one, or none.
pub open spec fn texts_of(entries: Seq<Entry>, name: Seq<char>) -> Seq<Seq<char>> {
    match written(entries, name) {
        Some(Value::Text(s)) => seq![s@],
        Some(Value::List(v)) => Seq::new(v@.len(), |i: int| v@[i]@),
        _ => Seq::empty(),
    }
}

/// The entries of the table written in a slot; none where there is no table.
pub open spec fn table_of(entries: Seq<Entry>, name: Seq<char>) -> Seq<Entry> {
    match written(entries, name) {
        Some(Value::Table(v)) => v@,
        _ => Seq::empty(),
    }
}

/// Whether a count is the one written in a slot, or another where nothing is.
pub open spec fn counts_or(
    entries: Seq<Entry>,
    name: Seq<char>,
    otherwise: nat,
    got: nat,
) -> bool {
    match written(entries, name) {
        Some(Value::Number(d)) => d.finite() && d.scaled() == got * crate::double::one_scaled(),
        _ => got == otherwise,
    }
}

/// Whether a slot holds a finite number or nothing.
pub open spec fn takes_number(entries: Seq<Entry>, name: Seq<char>) -> bool {
    match written(entries, name) {
        None => true,
        Some(Value::Number(d)) => d.finite(),
        Some(_) => false,
    }
}

/// Whether a slot holds a finite number above zero or nothing.
pub open spec fn takes_positive(entries: Seq<Entry>, name: Seq<char>) -> bool {
    match written(entries, name) {
        None => true,
        Some(Value::Number(d)) => d.finite() && d.scaled() > 0,
        Some(_) => false,
    }
}

/// Whether a slot holds a finite number not below zero or nothing.
pub open spec fn takes_non_negative(entries: Seq<Entry>, name: Seq<char>) -> bool {
    match written(entries, name) {
        None => true,
        Some(Value::Number(d)) => d.finite() && d.scaled() >= 0,
        Some(_) => false,
    }
}

/// Whether a slot holds a whole number within bounds or nothing.
pub open spec fn takes_count(
    entries: Seq<Entry>,
    name: Seq<char>,
    lowest: nat,
    highest: nat,
) -> bool {
    match written(entries, name) {
        None => true,
        Some(Value::Number(d)) => d.finite() && exists|n: nat|
            lowest <= n <= highest && d.scaled() == #[trigger] (n * crate::double::one_scaled()),
        Some(_) => false,
    }
}

/// Whether a slot holds a text or nothing.
pub open spec fn takes_text(entries: Seq<Entry>, name: Seq<char>) -> bool {
    match written(entries, name) {
        None => true,
        Some(Value::Text(_)) => true,
        Some(_) => false,
    }
}

/// Whether a slot holds a text, a list of texts, or nothing.
pub open spec fn takes_texts(entries: Seq<Entry>, name: Seq<char>) -> bool {
    match written(entries, name) {
        None => true,
        Some(Value::Text(_)) => true,
        Some(Value::List(_)) => true,
        Some(_) => false,
    }
}

/// Whether a slot holds a table or nothing.
pub open spec fn takes_table(entries: Seq<Entry>, name: Seq<char>) -> bool {
    match written(entries, name) {
        None => true,
        Some(Value::Table(_)) => true,
        Some(_) => false,
    }
}

/// Whether no entry has a name other than the given ones.
pub open spec fn only(entries: Seq<Entry>, names: Seq<Seq<char>>) -> bool {
    forall|i: int| 0 <= i < entries.len() ==> names.contains((#[trigger] entries[i]).name@)
}

proof fn lemma_found(entries: Seq<Entry>, name: Seq<char>, k: int)
    requires
        0 <= k <= entries.len(),
        forall|j: int| 0 <= j < k ==> (#[trigger] entries[j]).name@ != name,
    ensures
        find_from(entries, name, k) == written(entries, name),
    decreases entries.len() - k,
{
    if k < entries.len() {
        if entries[k].name@ == name {
            assert(first_at(entries, name, k));
            let i = choose|i: int| first_at(entries, name, i);
            assert(i == k);
        } else {
            lemma_found(entries, name, k + 1);
        }
    } else if exists|i: int| first_at(entries, name, i) {
        let i = choose|i: int| first_at(entries, name, i);
        assert(entries[i].name@ != name);
    }
}

/// A lookup finds what is written in the first entry of the name, and nothing where no
/// entry has it.
pub proof fn a_lookup_finds_what_is_written(scope: Scope, name: Seq<char>)
    ensures
        scope.slot(name) == written(scope.entries, name),
        written(scope.entries, name) is None <==> forall|i: int|
            0 <= i < scope.entries.len() ==> (#[trigger] scope.entries[i]).name@ != name,
{
    lemma_found(scope.entries, name, 0);
    if exists|i: int| 0 <= i < scope.entries.len() && (#[trigger] scope.entries[i]).name@ == name {
        lemma_some_first(scope.entries, name, scope.entries.len() as int);
    }
}

proof fn lemma_some_first(entries: Seq<Entry>, name: Seq<char>, k: int)
    requires
        0 <= k <= entries.len(),
        exists|i: int| 0 <= i < k && (#[trigger] entries[i]).name@ == name,
    ensures
        exists|i: int| first_at(entries, name, i),
    decreases k,
{
    if exists|i: int| 0 <= i < k - 1 && (#[trigger] entries[i]).name@ == name {
        lemma_some_first(entries, name, k - 1);
    } else {
        let i = choose|i: int| 0 <= i < k && (#[trigger] entries[i]).name@ == name;
        assert(i == k - 1);
        assert(first_at(entries, name, k - 1));
    }
}

/// A number slot gives the number written in it, which must be finite, and its default
/// where nothing is written; anything else is refused.
pub proof fn a_number_slot_gives_the_number_written(scope: Scope, name: Seq<char>, default: Double)
    ensures
        scope.number(name, default) is Ok <==> takes_number(scope.entries, name),
        scope.number(name, default) matches Ok(d) ==> d == number_or(scope.entries, name, default),
        scope.positive_number(name, default) is Ok <==> takes_positive(scope.entries, name),
        scope.positive_number(name, default) matches Ok(d) ==> d == number_or(
            scope.entries,
            name,
            default,
        ),
        scope.non_negative_number(name, default) is Ok <==> takes_non_negative(
            scope.entries,
            name,
        ),
        scope.non_negative_number(name, default) matches Ok(d) ==> d == number_or(
            scope.entries,
            name,
            default,
        ),
{
    a_lookup_finds_what_is_written(scope, name);
}

/// A count slot gives the whole number written in it, if it lies within the bounds, and its
/// default where nothing is written; anything else is refused.
pub proof fn a_count_slot_gives_the_count_written(
    scope: Scope,
    name: Seq<char>,
    default: usize,
    lowest: usize,
    highest: usize,
)
    requires
        highest < 0x20_0000_0000_0000,
    ensures
        scope.count_in(name, default, lowest, highest) is Ok <==> takes_count(
            scope.entries,
            name,
            lowest as nat,
            highest as nat,
        ),
        scope.count_in(name, default, lowest, highest) matches Ok(n) ==> counts_or(
            scope.entries,
            name,
            default as nat,
            n as nat,
        ),
        scope.count_in(name, default, lowest, highest) matches Ok(n) ==> (lowest <= n <= highest
            || written(scope.entries, name) is None),
{
    a_lookup_finds_what_is_written(scope, name);
    if let Some(Value::Number(d)) = scope.slot(name) {
        crate::double::a_count_is_its_value(d);
    }
}

/// A text slot gives the text written in it, a list slot the texts, and a table slot the
/// entries; anything else is refused.
pub proof fn a_text_slot_gives_the_text_written(scope: Scope, name: Seq<char>)
    ensures
        scope.optional_text(name) is Ok <==> takes_text(scope.entries, name),
        scope.optional_text(name) matches Ok(t) ==> t == text_of(scope.entries, name),
        scope.required_text(name) is Ok <==> text_of(scope.entries, name) is Some,
        scope.required_text(name) matches Ok(t) ==> Some(t) == text_of(scope.entries, name),
        scope.text_list(name) is Ok <==> takes_texts(scope.entries, name),
        scope.text_list(name) matches Ok(v) ==> v == texts_of(scope.entries, name),
        scope.table(name) is Ok <==> takes_table(scope.entries, name),
        scope.table(name) matches Ok(t) ==> t.entries == table_of(scope.entries, name) && t.path
            == scope.path + name + "."@,
{
    a_lookup_finds_what_is_written(scope, name);
}

/// A choice is the word written in its slot, if it is one of those admitted, and its
/// default where nothing is written.
pub proof fn a_choice_is_the_word_written(
    scope: Scope,
    name: Seq<char>,
    admitted: Seq<Seq<char>>,
    default: Seq<char>,
)
    ensures
        scope.choice(name, admitted, default) is Ok <==> (takes_text(scope.entries, name) && (
        text_of(scope.entries, name) matches Some(s) ==> admitted.contains(s))),
        scope.choice(name, admitted, default) matches Ok(s) ==> s == (match text_of(
            scope.entries,
            name,
        ) {
            Some(t) => t,
            None => default,
        }),
{
    a_text_slot_gives_the_text_written(scope, name);
}

/// A table with a centre and a spread gives the two numbers written in it, each from its
/// own slot; a table with a scale gives the scale.
pub proof fn a_table_gives_the_numbers_written(
    scope: Scope,
    table: Seq<char>,
    centre: Seq<char>,
    centre_default: Double,
    spread: Seq<char>,
    spread_default: Double,
)
    ensures
        ({
            let inner = table_of(scope.entries, table);
            let got = scope.centre_and_spread(
                table,
                centre,
                centre_default,
                spread,
                spread_default,
            );
            &&& got is Ok <==> takes_table(scope.entries, table) && only(inner, seq![centre, spread])
                && takes_number(inner, centre) && takes_positive(inner, spread)
            &&& got matches Ok(v) ==> v.0 == number_or(inner, centre, centre_default) && v.1
                == number_or(inner, spread, spread_default)
        }),
        ({
            let inner = table_of(scope.entries, table);
            let got = scope.scale(table, spread_default);
            &&& got is Ok <==> takes_table(scope.entries, table) && only(inner, seq!["scale"@])
                && takes_positive(inner, "scale"@)
            &&& got matches Ok(v) ==> v == number_or(inner, "scale"@, spread_default)
        }),
{
    a_text_slot_gives_the_text_written(scope, table);
    if let Ok(inner) = scope.table(table) {
        a_number_slot_gives_the_number_written(inner, centre, centre_default);
        a_number_slot_gives_the_number_written(inner, spread, spread_default);
        a_number_slot_gives_the_number_written(inner, "scale"@, spread_default);
        an_unknown_slot_is_named_by_its_path(inner, seq![centre, spread]);
        an_unknown_slot_is_named_by_its_path(inner, seq!["scale"@]);
    }
}

/// The Laplace engine is asked for exactly where the engine's name reads `laplace` in small
/// letters, and draws from the prior exactly where their source is `prior`.
pub proof fn an_engine_and_a_source_are_asked_for_by_name(scope: Scope)
    ensures
        scope.laplace_requested() is Ok <==> takes_text(scope.entries, "engine"@),
        scope.laplace_requested() matches Ok(b) ==> b == (text_of(
            scope.entries,
            "engine"@,
        ) matches Some(s) && crate::text::small(s) == "laplace"@),
        scope.prior_draws_requested() is Ok <==> takes_text(scope.entries, "sample_from"@),
        scope.prior_draws_requested() matches Ok(b) ==> b == (text_of(
            scope.entries,
            "sample_from"@,
        ) == Some("prior"@)),
{
    a_text_slot_gives_the_text_written(scope, "engine"@);
    a_text_slot_gives_the_text_written(scope, "sample_from"@);
}

/// A slot that is refused is named by its full path.
pub proof fn a_refused_slot_is_named_by_its_path(
    scope: Scope,
    name: Seq<char>,
    number: Double,
    lowest: usize,
    highest: usize,
    default: usize,
    admitted: Seq<Seq<char>>,
    word: Seq<char>,
)
    ensures
        scope.number(name, number) matches Err(f) ==> (f matches Fault::Config { slot, .. } && slot
            == scope.path + name),
        scope.positive_number(name, number) matches Err(f) ==> (f matches Fault::Config {
            slot,
            ..
        } && slot == scope.path + name),
        scope.non_negative_number(name, number) matches Err(f) ==> (f matches Fault::Config {
            slot,
            ..
        } && slot == scope.path + name),
        scope.count_in(name, default, lowest, highest) matches Err(f) ==> (
        f matches Fault::Config { slot, .. } && slot == scope.path + name),
        scope.required_text(name) matches Err(f) ==> (f matches Fault::Config { slot, .. } && slot
            == scope.path + name),
        scope.optional_text(name) matches Err(f) ==> (f matches Fault::Config { slot, .. } && slot
            == scope.path + name),
        scope.text_list(name) matches Err(f) ==> (f matches Fault::Config { slot, .. } && slot
            == scope.path + name),
        scope.choice(name, admitted, word) matches Err(f) ==> (f matches Fault::Config {
            slot,
            ..
        } && slot == scope.path + name),
        scope.table(name) matches Err(f) ==> (f matches Fault::Config { slot, .. } && slot
            == scope.path + name),
{
}

impl Config {
    /// A request without options.
    pub fn new() -> (r: Config)
        ensures
            r@ == (Scope { path: Seq::empty(), entries: Seq::empty() }),
    {
        Config { entries: Vec::new() }
    }

    /// The whole request as a section.
    pub fn root(&self) -> (r: Section<'_>)
        ensures
            r@ == self@,
    {
        let r = Section { path: String::new(), entries: Some(&self.entries) };
        proof {
            assert(r@ =~= self@);
        }
        r
    }
}

/// Whether a word is one of several.
fn is_among(word: &str, known: &[&str]) -> (r: bool)
    ensures
        r == crate::text::words(known@).contains(word@),
{
    let mut k: usize = 0;
    while k < known.len()
        invariant
            k <= known@.len(),
            forall|i: int| 0 <= i < k ==> (#[trigger] crate::text::words(known@)[i]) != word@,
        decreases known@.len() - k,
    {
        if same_text(known[k], word) {
            proof {
                assert(crate::text::words(known@)[k as int] == word@);
            }
            return true;
        }
        k += 1;
    }
    false
}

/// The words of a list as strings.
fn owned_words(known: &[&str]) -> (r: Vec<String>)
    ensures
        crate::text::texts(r@) == crate::text::words(known@),
{
    let mut out: Vec<String> = Vec::new();
    let mut k: usize = 0;
    while k < known.len()
        invariant
            k <= known@.len(),
            out@.len() == k,
            forall|i: int| 0 <= i < k ==> (#[trigger] out@[i])@ == known@[i]@,
        decreases known@.len() - k,
    {
        out.push(known[k].to_owned());
        k += 1;
    }
    proof {
        assert(crate::text::texts(out@) =~= crate::text::words(known@));
    }
    out
}

fn copy_strings(v: &Vec<String>) -> (r: Vec<String>)
    ensures
        crate::text::texts(r@) == crate::text::texts(v@),
{
    let mut out: Vec<String> = Vec::new();
    let mut k: usize = 0;
    while k < v.len()
        invariant
            k <= v@.len(),
            out@.len() == k,
            forall|i: int| 0 <= i < k ==> (#[trigger] out@[i])@ == v@[i]@,
        decreases v@.len() - k,
    {
        out.push(v[k].clone());
        k += 1;
    }
    proof {
        assert(crate::text::texts(out@) =~= crate::text::texts(v@));
    }
    out
}

impl<'a> Section<'a> {
    fn get(&self, name: &str) -> (r: Option<&'a Value>)
        ensures
            match r {
                Some(v) => self@.slot(name@) == Some(*v),
                None => self@.slot(name@) is None,
            },
    {
        let entries: &'a Vec<Entry> = match self.entries {
            Some(entries) => entries,
            None => {
                return None;
            },
        };
        let mut k: usize = 0;
        while k < entries.len()
            invariant
                k <= entries@.len(),
                self@.entries == entries@,
                find_from(entries@, name@, 0) == find_from(entries@, name@, k as int),
            decreases entries@.len() - k,
        {
            if same_text(entries[k].name.as_str(), name) {
                return Some(&entries[k].value);
            }
            k += 1;
        }
        None
    }

    /// Whether a slot is there.
    pub fn has(&self, name: &str) -> (r: bool)
        ensures
            r == (self@.slot(name@) is Some),
    {
        match self.get(name) {
            Some(_) => true,
            None => false,
        }
    }

    fn place(&self, name: &str) -> (r: String)
        ensures
            r@ == self@.place(name@),
    {
        self.path.clone().concat(name)
    }

    fn refuse(&self, name: &str, text: &str) -> (r: BayesError)
        ensures
            r@ == self@.fault(name@, text@),
    {
        BayesError::config(self.place(name).as_str(), text)
    }

    /// Refuses a section that holds a slot which none of the known names names.
    pub fn reject_unknown(&self, known: &[&str]) -> (r: BayesResult<()>)
        ensures
            match r {
                Ok(_) => self@.unknown_slot(crate::text::words(known@)) is None,
                Err(e) => self@.unknown_slot(crate::text::words(known@)) == Some(e@),
            },
    {
        let entries: &'a Vec<Entry> = match self.entries {
            Some(entries) => entries,
            None => {
                return Ok(());
            },
        };
        let ghost words = crate::text::words(known@);
        let mut k: usize = 0;
        while k < entries.len()
            invariant
                k <= entries@.len(),
                words == crate::text::words(known@),
                self@.entries == entries@,
                stranger_from(entries@, words, 0) == stranger_from(entries@, words, k as int),
            decreases entries@.len() - k,
        {
            let name = entries[k].name.as_str();
            if !is_among(name, known) {
                let text = match suggest(name, known) {
                    Some(best) => "unknown option; did you mean '".to_owned().concat(best).concat(
                        "'?",
                    ),
                    None => "unknown option; expected one of ".to_owned().concat(
                        join(owned_words(known).as_slice(), ", ").as_str(),
                    ),
                };
                return Err(self.refuse(name, text.as_str()));
            }
            k += 1;
        }
        Ok(())
    }

    /// The text of a slot, where it is there.
    pub fn opt_str(&self, name: &str) -> (r: BayesResult<Option<String>>)
        ensures
            match r {
                Ok(Some(s)) => self@.optional_text(name@) == Ok::<_, Fault>(Some(s@)),
                Ok(None) => self@.optional_text(name@) == Ok::<_, Fault>(None::<Seq<char>>),
                Err(e) => self@.optional_text(name@) == Err::<Option<Seq<char>>, _>(e@),
            },
    {
        match self.get(name) {
            None => Ok(None),
            Some(Value::Text(s)) => Ok(Some(s.clone())),
            Some(_) => Err(self.refuse(name, "must be a string")),
        }
    }

    /// The text of a slot that must be there.
    pub fn require_str(&self, name: &str) -> (r: BayesResult<String>)
        ensures
            crate::errors::outcome(r) == self@.required_text(name@),
    {
        match self.opt_str(name) {
            Ok(Some(s)) => Ok(s),
            Ok(None) => Err(self.refuse(name, "is required")),
            Err(e) => Err(e),
        }
    }

    /// The names in a slot.
    pub fn str_list(&self, name: &str) -> (r: BayesResult<Vec<String>>)
        ensures
            match r {
                Ok(v) => self@.text_list(name@) == Ok::<_, Fault>(crate::text::texts(v@)),
                Err(e) => self@.text_list(name@) == Err::<Seq<Seq<char>>, _>(e@),
            },
    {
        match self.get(name) {
            None => {
                let out: Vec<String> = Vec::new();
                proof {
                    assert(crate::text::texts(out@) =~= Seq::<Seq<char>>::empty());
                }
                Ok(out)
            },
            Some(Value::Text(s)) => {
                let mut out: Vec<String> = Vec::new();
                out.push(s.clone());
                proof {
                    assert(crate::text::texts(out@) =~= seq![s@]);
                }
                Ok(out)
            },
            Some(Value::List(v)) => Ok(copy_strings(v)),
            Some(_) => Err(self.refuse(name, "must be a string or a list of strings")),
        }
    }

    /// One of the admitted words.
    pub fn one_of(&self, name: &str, admitted: &[&str], default: &str) -> (r: BayesResult<String>)
        ensures
            crate::errors::outcome(r) == self@.choice(
                name@,
                crate::text::words(admitted@),
                default@,
            ),
    {
        match self.opt_str(name) {
            Ok(None) => Ok(default.to_owned()),
            Ok(Some(s)) => {
                if is_among(s.as_str(), admitted) {
                    Ok(s)
                } else {
                    let text = "expected one of ".to_owned().concat(
                        join(owned_words(admitted).as_slice(), ", ").as_str(),
                    ).concat(", got '").concat(s.as_str()).concat("'");
                    Err(self.refuse(name, text.as_str()))
                }
            },
            Err(e) => Err(e),
        }
    }

    /// A number, finite where it is given.
    pub fn f64_or(&self, name: &str, default: Double) -> (r: BayesResult<Double>)
        ensures
            crate::errors::plain(r) == self@.number(name@, default),
    {
        match self.get(name) {
            None => Ok(default),
            Some(Value::Number(d)) => {
                if d.is_finite() {
                    Ok(*d)
                } else {
                    Err(
                        BayesError::config_number(
                            self.place(name).as_str(),
                            "must be a finite number, got ".to_owned(),
                            *d,
                            "",
                        ),
                    )
                }
            },
            Some(_) => Err(self.refuse(name, "must be a number")),
        }
    }

    /// A number that must be greater than zero.
    pub fn positive_f64_or(&self, name: &str, default: Double) -> (r: BayesResult<Double>)
        ensures
            crate::errors::plain(r) == self@.positive_number(name@, default),
    {
        match self.get(name) {
            Some(Value::Number(d)) => {
                if !d.is_finite() {
                    self.f64_or(name, default)
                } else if d.is_positive() {
                    Ok(*d)
                } else {
                    Err(
                        BayesError::config_number(
                            self.place(name).as_str(),
                            "must be > 0, got ".to_owned(),
                            *d,
                            "",
                        ),
                    )
                }
            },
            _ => self.f64_or(name, default),
        }
    }

    /// A number that must not be below zero.
    pub fn non_negative_f64_or(&self, name: &str, default: Double) -> (r: BayesResult<Double>)
        ensures
            crate::errors::plain(r) == self@.non_negative_number(name@, default),
    {
        match self.get(name) {
            Some(Value::Number(d)) => {
                if !d.is_finite() {
                    self.f64_or(name, default)
                } else if Double::zero().at_most(*d) {
                    Ok(*d)
                } else {
                    Err(
                        BayesError::config_number(
                            self.place(name).as_str(),
                            "must be >= 0, got ".to_owned(),
                            *d,
                            "",
                        ),
                    )
                }
            },
            _ => self.f64_or(name, default),
        }
    }

    /// A whole number within bounds.
    pub fn usize_in(&self, name: &str, default: usize, lowest: usize, highest: usize) -> (r:
        BayesResult<usize>)
        ensures
            crate::errors::plain(r) == self@.count_in(name@, default, lowest, highest),
    {
        match self.get(name) {
            None => Ok(default),
            Some(Value::Number(d)) => {
                match d.to_count() {
                    Some(n) => {
                        if (lowest as u64) <= n && n <= (highest as u64) {
                            return Ok(n as usize);
                        }
                    },
                    None => {},
                }
                Err(
                    BayesError::config_number(
                        self.place(name).as_str(),
                        "must be a whole number between ".to_owned().concat(
                            decimal(lowest).as_str(),
                        ).concat(" and ").concat(decimal(highest).as_str()).concat(", got "),
                        *d,
                        "",
                    ),
                )
            },
            Some(_) => Err(self.refuse(name, "must be a number")),
        }
    }

    /// A table inside this one.
    pub fn nested(&self, name: &str) -> (r: BayesResult<Section<'a>>)
        ensures
            crate::errors::outcome(r) == self@.table(name@),
    {
        match self.get(name) {
            None => {
                let r = Section { path: self.place(name).concat("."), entries: None };
                proof {
                    assert(r@.entries =~= Seq::<Entry>::empty());
                }
                Ok(r)
            },
            Some(Value::Table(v)) => Ok(
                Section { path: self.place(name).concat("."), entries: Some(v) },
            ),
            Some(_) => Err(self.refuse(name, "must be a table of options")),
        }
    }

    /// A table with a number in one slot and a number above zero in another.
    pub fn location_and_scale(
        &self,
        table: &str,
        centre: &str,
        centre_default: Double,
        spread: &str,
        spread_default: Double,
    ) -> (r: BayesResult<(Double, Double)>)
        ensures
            crate::errors::plain(r) == self@.centre_and_spread(
                table@,
                centre@,
                centre_default,
                spread@,
                spread_default,
            ),
    {
        let inner = self.nested(table)?;
        let known = [centre, spread];
        proof {
            assert(crate::text::words(known@) =~= seq![centre@, spread@]);
        }
        inner.reject_unknown(&known)?;
        let c = inner.f64_or(centre, centre_default)?;
        let s = inner.positive_f64_or(spread, spread_default)?;
        Ok((c, s))
    }

    /// A table whose only slot is a scale above zero.
    pub fn scale_or(&self, table: &str, default: Double) -> (r: BayesResult<Double>)
        ensures
            crate::errors::plain(r) == self@.scale(table@, default),
    {
        let inner = self.nested(table)?;
        let known = ["scale"];
        proof {
            assert(crate::text::words(known@) =~= seq!["scale"@]);
        }
        inner.reject_unknown(&known)?;
        inner.positive_f64_or("scale", default)
    }

    /// Whether the Laplace engine is asked for.
    pub fn asks_for_laplace(&self) -> (r: BayesResult<bool>)
        ensures
            crate::errors::plain(r) == self@.laplace_requested(),
    {
        match self.opt_str("engine")? {
            Some(engine) => Ok(reads_as(engine.as_str(), "laplace")),
            None => Ok(false),
        }
    }

    /// Whether draws from the prior are asked for.
    pub fn asks_for_prior_draws(&self) -> (r: BayesResult<bool>)
        ensures
            crate::errors::plain(r) == self@.prior_draws_requested(),
    {
        match self.opt_str("sample_from")? {
            Some(source) => Ok(same_text(source.as_str(), "prior")),
            None => Ok(false),
        }
    }
}

} // verus!
