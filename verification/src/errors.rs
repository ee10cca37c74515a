//! What a request can be refused with, and the messages that say why.
//!
//! A message is a list of parts: text, and numbers that are yet to be written out. The
//! library decides every word and the place of every number; how a double is printed is
//! left to whoever prints it.
use crate::double::Double;
use crate::text::{decimal, join};
use vstd::prelude::*;

verus! {

/// A stretch of text, or numbers to be written out in its place.
#[derive(Debug)]
pub enum Part {
    Text(String),
    /// A number, as it is shown to a reader.
    Number(Double),
    /// A bracketed list of numbers.
    Numbers(Vec<Double>),
}

/// What a [`Part`] says.
#[verifier::ext_equal]
pub enum Piece {
    Text(Seq<char>),
    Number(Double),
    Numbers(Seq<Double>),
}

impl View for Part {
    type V = Piece;

    open spec fn view(&self) -> Piece {
        match self {
            Part::Text(s) => Piece::Text(s@),
            Part::Number(d) => Piece::Number(*d),
            Part::Numbers(v) => Piece::Numbers(v@),
        }
    }
}

impl Clone for Part {
    fn clone(&self) -> (r: Self)
        ensures
            r@ == self@,
    {
        match self {
            Part::Text(s) => Part::Text(s.clone()),
            Part::Number(d) => Part::Number(*d),
            Part::Numbers(v) => Part::Numbers(v.clone()),
        }
    }
}

/// A sentence for a reader.
#[derive(Debug)]
pub struct Message {
    pub parts: Vec<Part>,
}

impl View for Message {
    type V = Seq<Piece>;

    open spec fn view(&self) -> Seq<Piece> {
        Seq::new(self.parts@.len(), |i: int| self.parts@[i]@)
    }
}

impl Clone for Message {
    fn clone(&self) -> (r: Self)
        ensures
            r@ == self@,
    {
        let mut parts: Vec<Part> = Vec::new();
        let mut k: usize = 0;
        while k < self.parts.len()
            invariant
                k <= self.parts@.len(),
                parts@.len() == k,
                forall|i: int| 0 <= i < k ==> (#[trigger] parts@[i])@ == self.parts@[i]@,
            decreases self.parts@.len() - k,
        {
            parts.push(self.parts[k].clone());
            k += 1;
        }
        let r = Message { parts };
        proof {
            assert(r@ =~= self@);
        }
        r
    }
}

impl Message {
    /// The message that is one piece of text.
    pub open spec fn saying(text: Seq<char>) -> Seq<Piece> {
        seq![Piece::Text(text)]
    }

    /// The message that puts one number between two pieces of text.
    pub open spec fn showing(before: Seq<char>, value: Double, after: Seq<char>) -> Seq<Piece> {
        seq![Piece::Text(before), Piece::Number(value), Piece::Text(after)]
    }

    /// The message that puts two numbers behind two pieces of text.
    pub open spec fn showing_two(
        before: Seq<char>,
        first: Double,
        between: Seq<char>,
        second: Double,
    ) -> Seq<Piece> {
        seq![
            Piece::Text(before),
            Piece::Number(first),
            Piece::Text(between),
            Piece::Number(second),
        ]
    }

    /// A message with two numbers in it.
    pub fn with_two_numbers(before: String, first: Double, between: &str, second: Double) -> (r:
        Message)
        ensures
            r@ == Message::showing_two(before@, first, between@, second),
    {
        let mut parts: Vec<Part> = Vec::new();
        parts.push(Part::Text(before));
        parts.push(Part::Number(first));
        parts.push(Part::Text(between.to_owned()));
        parts.push(Part::Number(second));
        let r = Message { parts };
        proof {
            assert(r@ =~= Message::showing_two(before@, first, between@, second));
        }
        r
    }

    /// The message that puts a list of numbers between two pieces of text.
    pub open spec fn listing(before: Seq<char>, values: Seq<Double>, after: Seq<char>) -> Seq<Piece> {
        seq![Piece::Text(before), Piece::Numbers(values), Piece::Text(after)]
    }

    /// A message with a list of numbers in it.
    pub fn with_numbers(before: &str, values: Vec<Double>, after: &str) -> (r: Message)
        ensures
            r@ == Message::listing(before@, values@, after@),
    {
        let mut parts: Vec<Part> = Vec::new();
        parts.push(Part::Text(before.to_owned()));
        parts.push(Part::Numbers(values));
        parts.push(Part::Text(after.to_owned()));
        let r = Message { parts };
        proof {
            assert(r@ =~= Message::listing(before@, values@, after@));
        }
        r
    }

    /// The message with text put behind it.
    pub fn followed(self, text: &str) -> (r: Message)
        ensures
            r@ == self@ + Message::saying(text@),
    {
        let ghost before = self@;
        let mut parts = self.parts;
        parts.push(Part::Text(text.to_owned()));
        let r = Message { parts };
        proof {
            assert(r@ =~= before + Message::saying(text@));
        }
        r
    }

    /// A message of text alone.
    pub fn of(text: String) -> (r: Message)
        ensures
            r@ == Message::saying(text@),
    {
        let mut parts: Vec<Part> = Vec::new();
        parts.push(Part::Text(text));
        let r = Message { parts };
        proof {
            assert(r@ =~= Message::saying(text@));
        }
        r
    }

    /// A message with one number in it.
    pub fn with_number(before: String, value: Double, after: &str) -> (r: Message)
        ensures
            r@ == Message::showing(before@, value, after@),
    {
        let mut parts: Vec<Part> = Vec::new();
        parts.push(Part::Text(before));
        parts.push(Part::Number(value));
        parts.push(Part::Text(after.to_owned()));
        let r = Message { parts };
        proof {
            assert(r@ =~= Message::showing(before@, value, after@));
        }
        r
    }

    /// The message with text put in front of it.
    pub fn prefixed(&self, text: String) -> (r: Message)
        ensures
            r@ == Message::saying(text@) + self@,
    {
        let mut parts: Vec<Part> = Vec::new();
        parts.push(Part::Text(text));
        let mut k: usize = 0;
        while k < self.parts.len()
            invariant
                k <= self.parts@.len(),
                parts@.len() == k + 1,
                parts@[0]@ == Piece::Text(text@),
                forall|i: int| 0 <= i < k ==> (#[trigger] parts@[i + 1])@ == self.parts@[i]@,
            decreases self.parts@.len() - k,
        {
            parts.push(self.parts[k].clone());
            k += 1;
        }
        let r = Message { parts };
        proof {
            assert forall|i: int| 0 <= i < r@.len() implies r@[i] == (Message::saying(text@)
                + self@)[i] by {
                if i > 0 {
                    assert(r.parts@[(i - 1) + 1]@ == self.parts@[i - 1]@);
                }
            }
            assert(r@ =~= Message::saying(text@) + self@);
        }
        r
    }
}

/// Why a request was not served.
#[derive(Debug)]
pub enum BayesError {
    /// A slot of the request, or the data that it names, is not admissible.
    Config { slot: String, message: Message },
    /// There are no more usable rows than parameters.
    InsufficientData { rows: usize, params: usize },
    /// The request names a column that the data does not have.
    MissingColumn { name: String, available: Vec<String> },
    /// A buffer has the wrong length.
    DimensionMismatch(String),
    /// The design does not determine its coefficients.
    SingularMatrix,
    /// A result that contradicts what produced it.
    Internal(Message),
}

/// What a [`BayesError`] says.
#[verifier::ext_equal]
pub enum Fault {
    Config { slot: Seq<char>, message: Seq<Piece> },
    InsufficientData { rows: usize, params: usize },
    MissingColumn { name: Seq<char>, available: Seq<Seq<char>> },
    DimensionMismatch(Seq<char>),
    SingularMatrix,
    Internal(Seq<Piece>),
}

impl View for BayesError {
    type V = Fault;

    open spec fn view(&self) -> Fault {
        match self {
            BayesError::Config { slot, message } => Fault::Config {
                slot: slot@,
                message: message@,
            },
            BayesError::InsufficientData { rows, params } => Fault::InsufficientData {
                rows: *rows,
                params: *params,
            },
            BayesError::MissingColumn { name, available } => Fault::MissingColumn {
                name: name@,
                available: crate::text::texts(available@),
            },
            BayesError::DimensionMismatch(text) => Fault::DimensionMismatch(text@),
            BayesError::SingularMatrix => Fault::SingularMatrix,
            BayesError::Internal(message) => Fault::Internal(message@),
        }
    }
}

/// An error says what it holds: its slot, its numbers, its names and its sentences, each in
/// its own place.
pub proof fn an_error_says_what_it_holds(e: BayesError)
    ensures
        match e {
            BayesError::Config { slot, message } => e@ matches Fault::Config {
                slot: place,
                message: told,
            } && place == slot@ && told.len() == message.parts@.len() && forall|i: int|
                0 <= i < told.len() ==> match #[trigger] message.parts@[i] {
                    Part::Text(s) => told[i] == Piece::Text(s@),
                    Part::Number(d) => told[i] == Piece::Number(d),
                    Part::Numbers(v) => told[i] == Piece::Numbers(v@),
                },
            BayesError::InsufficientData { rows, params } => e@ == (Fault::InsufficientData {
                rows,
                params,
            }),
            BayesError::MissingColumn { name, available } => e@ matches Fault::MissingColumn {
                name: missing,
                available: there,
            } && missing == name@ && there.len() == available@.len() && forall|i: int|
                0 <= i < there.len() ==> there[i] == (#[trigger] available@[i])@,
            BayesError::DimensionMismatch(text) => e@ == Fault::DimensionMismatch(text@),
            BayesError::SingularMatrix => e@ is SingularMatrix,
            BayesError::Internal(_) => e@ is Internal,
        },
{
}

pub type BayesResult<T> = Result<T, BayesError>;

/// What a result says, of a type that has a view.
pub open spec fn outcome<T: View>(r: BayesResult<T>) -> Result<T::V, Fault> {
    match r {
        Ok(v) => Ok(v@),
        Err(e) => Err(e@),
    }
}

/// What a result says, of a type that is its own view.
pub open spec fn plain<T>(r: BayesResult<T>) -> Result<T, Fault> {
    match r {
        Ok(v) => Ok(v),
        Err(e) => Err(e@),
    }
}

impl Fault {
    /// A slot refused with a piece of text.
    pub open spec fn config(slot: Seq<char>, text: Seq<char>) -> Fault {
        Fault::Config { slot, message: Message::saying(text) }
    }

    /// A slot refused with one number in the sentence.
    pub open spec fn config_showing(
        slot: Seq<char>,
        before: Seq<char>,
        value: Double,
        after: Seq<char>,
    ) -> Fault {
        Fault::Config { slot, message: Message::showing(before, value, after) }
    }

    /// Buffers that do not hold one entry per coordinate.
    pub open spec fn coordinates(dim: nat, theta: usize, out: usize) -> Fault {
        Fault::DimensionMismatch(
            "expected "@ + crate::text::numeral(dim) + " coordinates, got theta "@
                + crate::text::numeral(theta as nat) + " and out "@ + crate::text::numeral(
                out as nat,
            ),
        )
    }

    /// A draw buffer that does not hold one slot per parameter.
    pub open spec fn slots(expected: nat, got: nat) -> Fault {
        Fault::DimensionMismatch(
            "expected "@ + crate::text::numeral(expected) + " slots, got "@ + crate::text::numeral(got),
        )
    }
}

impl BayesError {
    /// A slot refused with a fixed sentence.
    pub fn config(slot: &str, text: &str) -> (r: BayesError)
        ensures
            r@ == Fault::config(slot@, text@),
    {
        BayesError::Config { slot: slot.to_owned(), message: Message::of(text.to_owned()) }
    }

    /// A slot refused with a sentence put together for the occasion.
    pub fn config_text(slot: &str, text: String) -> (r: BayesError)
        ensures
            r@ == Fault::config(slot@, text@),
    {
        BayesError::Config { slot: slot.to_owned(), message: Message::of(text) }
    }

    /// A slot refused with one number in the sentence.
    pub fn config_number(slot: &str, before: String, value: Double, after: &str) -> (r: BayesError)
        ensures
            r@ == Fault::config_showing(slot@, before@, value, after@),
    {
        BayesError::Config {
            slot: slot.to_owned(),
            message: Message::with_number(before, value, after),
        }
    }

    /// What the error says to a reader: the slot or the kind of fault, then its message.
    pub fn describe(&self) -> (r: Message)
        ensures
            r@ == match self@ {
                Fault::Config { slot, message } => Message::saying(slot + ": "@) + message,
                Fault::InsufficientData { rows, params } => Message::saying(
                    crate::text::numeral(rows as nat) + " usable rows for "@
                        + crate::text::numeral(params as nat) + " parameters"@,
                ),
                Fault::MissingColumn { name, available } => Message::saying(
                    "column '"@ + name + "' not found; available: "@ + crate::text::joined(
                        available,
                        ", "@,
                    ),
                ),
                Fault::DimensionMismatch(text) => Message::saying("dimension mismatch: "@ + text),
                Fault::SingularMatrix => Message::saying("the design is rank deficient"@),
                Fault::Internal(message) => Message::saying("internal error: "@) + message,
            },
    {
        match self {
            BayesError::Config { slot, message } => message.prefixed(slot.clone().concat(": ")),
            BayesError::InsufficientData { rows, params } => Message::of(
                decimal(*rows).concat(" usable rows for ").concat(decimal(*params).as_str()).concat(
                    " parameters",
                ),
            ),
            BayesError::MissingColumn { name, available } => Message::of(
                "column '".to_owned().concat(name.as_str()).concat(
                    "' not found; available: ",
                ).concat(join(available.as_slice(), ", ").as_str()),
            ),
            BayesError::DimensionMismatch(text) => Message::of(
                "dimension mismatch: ".to_owned().concat(text.as_str()),
            ),
            BayesError::SingularMatrix => Message::of("the design is rank deficient".to_owned()),
            BayesError::Internal(message) => message.prefixed("internal error: ".to_owned()),
        }
    }

    /// Refuses buffers that do not hold one entry per coordinate.
    pub fn check_coordinates(dim: usize, theta: usize, out: usize) -> (r: BayesResult<()>)
        ensures
            r is Ok <==> theta == dim && out == dim,
            r matches Err(e) ==> e@ == Fault::coordinates(dim as nat, theta, out),
    {
        if theta != dim || out != dim {
            return Err(
                BayesError::DimensionMismatch(
                    "expected ".to_owned().concat(decimal(dim).as_str()).concat(
                        " coordinates, got theta ",
                    ).concat(decimal(theta).as_str()).concat(" and out ").concat(
                        decimal(out).as_str(),
                    ),
                ),
            );
        }
        Ok(())
    }

    /// Refuses a draw buffer that does not hold one slot per parameter.
    pub fn check_slots(expected: usize, got: usize) -> (r: BayesResult<()>)
        ensures
            r is Ok <==> expected == got,
            r matches Err(e) ==> e@ == Fault::slots(expected as nat, got as nat),
    {
        if expected != got {
            return Err(
                BayesError::DimensionMismatch(
                    "expected ".to_owned().concat(decimal(expected).as_str()).concat(
                        " slots, got ",
                    ).concat(decimal(got).as_str()),
                ),
            );
        }
        Ok(())
    }
}

} // verus!
