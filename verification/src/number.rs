//! Numbers are IEEE-754 binary64 values carried as their 64-bit patterns.
//!
//! The engine itself never computes with them beyond sign, class and order,
//! which are read off the bits. Arithmetic and the conversions from and to
//! decimal text are looked up in a [`Numerics`] table that the caller fills.
use vstd::prelude::*;
use crate::error::{Halt, Stop};
use crate::text::str_eq;

verus! {

/// The bit of the sign.
pub const SIGN_BIT: u64 = 0x8000_0000_0000_0000;

/// The bits of the exponent and the fraction.
pub const MAGNITUDE: u64 = 0x7fff_ffff_ffff_ffff;

/// The bits of positive infinity: the exponent all ones, the fraction zero.
pub const INFINITY_BITS: u64 = 0x7ff0_0000_0000_0000;

/// The bits of `1.0`.
pub const ONE_BITS: u64 = 0x3ff0_0000_0000_0000;

/// The bits of `100.0`.
pub const HUNDRED_BITS: u64 = 0x4059_0000_0000_0000;

/// A binary64 value, by its bits.
#[derive(Debug, Clone, Copy, PartialEq, Eq, Structural)]
pub struct Number {
    pub bits: u64,
}

/// The bits without the sign.
pub open spec fn magnitude(bits: u64) -> u64 {
    bits & MAGNITUDE
}

/// Whether the sign bit is set.
pub open spec fn negative(bits: u64) -> bool {
    bits & SIGN_BIT != 0
}

/// Not a number: the exponent is all ones and the fraction is not zero.
pub open spec fn nan(bits: u64) -> bool {
    magnitude(bits) > INFINITY_BITS
}

/// Neither infinite nor a NaN.
pub open spec fn finite(bits: u64) -> bool {
    magnitude(bits) < INFINITY_BITS
}

/// Positive or negative zero.
pub open spec fn zero(bits: u64) -> bool {
    magnitude(bits) == 0
}

/// Where a value that is no NaN stands in the order of the reals: the
/// magnitudes of binary64 values are ordered as their bit patterns are.
pub open spec fn rank(bits: u64) -> int {
    if negative(bits) {
        -(magnitude(bits) as int)
    } else {
        magnitude(bits) as int
    }
}

/// Numeric equality: no NaN equals anything, and the two zeros are equal.
pub open spec fn same(a: u64, b: u64) -> bool {
    !nan(a) && !nan(b) && rank(a) == rank(b)
}

/// Numeric `<`: false as soon as one side is a NaN.
pub open spec fn below(a: u64, b: u64) -> bool {
    !nan(a) && !nan(b) && rank(a) < rank(b)
}

/// The value with its sign changed.
pub open spec fn opposite(bits: u64) -> u64 {
    bits ^ SIGN_BIT
}

impl Number {
    /// `0.0`
    pub open spec fn spec_zero() -> Number {
        Number { bits: 0 }
    }

    /// `1.0`
    pub open spec fn spec_one() -> Number {
        Number { bits: ONE_BITS }
    }

    /// The number with these bits.
    pub fn from_bits(bits: u64) -> (r: Number)
        ensures
            r.bits == bits,
    {
        Number { bits }
    }

    /// `0.0`
    #[verifier::when_used_as_spec(spec_zero)]
    pub fn zero() -> (r: Number)
        ensures
            r == Number::spec_zero(),
    {
        Number { bits: 0 }
    }

    /// `1.0`
    #[verifier::when_used_as_spec(spec_one)]
    pub fn one() -> (r: Number)
        ensures
            r == Number::spec_one(),
    {
        Number { bits: ONE_BITS }
    }

    /// `100.0`
    pub fn hundred() -> (r: Number)
        ensures
            r.bits == HUNDRED_BITS,
    {
        Number { bits: HUNDRED_BITS }
    }

    fn magnitude(&self) -> (r: u64)
        ensures
            r == magnitude(self.bits),
    {
        self.bits & MAGNITUDE
    }

    fn rank(&self) -> (r: i128)
        ensures
            r == rank(self.bits),
    {
        let m: u64 = self.magnitude();
        if self.bits & SIGN_BIT != 0 {
            -(m as i128)
        } else {
            m as i128
        }
    }

    /// Whether the value is no number.
    pub fn is_nan(&self) -> (r: bool)
        ensures
            r == nan(self.bits),
    {
        self.magnitude() > INFINITY_BITS
    }

    /// Whether the value is neither infinite nor a NaN.
    pub fn is_finite(&self) -> (r: bool)
        ensures
            r == finite(self.bits),
    {
        self.magnitude() < INFINITY_BITS
    }

    /// Whether the value is zero, of either sign.
    pub fn is_zero(&self) -> (r: bool)
        ensures
            r == zero(self.bits),
    {
        self.magnitude() == 0
    }

    /// The value with its sign changed.
    pub fn negated(&self) -> (r: Number)
        ensures
            r.bits == opposite(self.bits),
    {
        Number { bits: self.bits ^ SIGN_BIT }
    }

    /// Numeric `==`.
    pub fn equals(&self, other: &Number) -> (r: bool)
        ensures
            r == same(self.bits, other.bits),
    {
        !self.is_nan() && !other.is_nan() && self.rank() == other.rank()
    }

    /// Numeric `<`.
    pub fn less_than(&self, other: &Number) -> (r: bool)
        ensures
            r == below(self.bits, other.bits),
    {
        !self.is_nan() && !other.is_nan() && self.rank() < other.rank()
    }

    /// Numeric `>`.
    pub fn greater_than(&self, other: &Number) -> (r: bool)
        ensures
            r == below(other.bits, self.bits),
    {
        other.less_than(self)
    }
}

/// Negating twice gives the value back, and negation keeps the class.
pub proof fn lemma_opposite(bits: u64)
    ensures
        opposite(opposite(bits)) == bits,
        magnitude(opposite(bits)) == magnitude(bits),
        negative(opposite(bits)) == !negative(bits),
{
    assert(((bits ^ 0x8000_0000_0000_0000u64) ^ 0x8000_0000_0000_0000u64) == bits) by (bit_vector);
    assert(((bits ^ 0x8000_0000_0000_0000u64) & 0x7fff_ffff_ffff_ffffu64) == (bits
        & 0x7fff_ffff_ffff_ffffu64)) by (bit_vector);
    assert((((bits ^ 0x8000_0000_0000_0000u64) & 0x8000_0000_0000_0000u64) != 0) == !((bits
        & 0x8000_0000_0000_0000u64) != 0)) by (bit_vector);
}

/// The arithmetic that the engine leaves to the table.
#[derive(Debug, Clone, Copy, PartialEq, Eq, Structural)]
pub enum Operator {
    Add,
    Sub,
    Mul,
    Div,
    Pow,
}

/// A question that only floating-point code can answer.
#[derive(Debug, Clone, PartialEq, Eq)]
pub enum Request {
    /// Which number does this decimal text denote, if any?
    Parse(String),
    /// How is this number written?
    Show(Number),
    /// What does the operator give for these two operands, in this order?
    Compute(Operator, Number, Number),
}

/// A request as a plain value.
pub enum Ask {
    Parse(Seq<char>),
    Show(u64),
    Compute(Operator, u64, u64),
}

impl View for Request {
    type V = Ask;

    open spec fn view(&self) -> Ask {
        match *self {
            Request::Parse(s) => Ask::Parse(s@),
            Request::Show(n) => Ask::Show(n.bits),
            Request::Compute(op, a, b) => Ask::Compute(op, a.bits, b.bits),
        }
    }
}

/// What a table of numbers knows.
pub struct Table {
    /// Decimal text to the number it denotes, or `None` where it denotes none.
    pub parsed: Map<Seq<char>, Option<u64>>,
    /// A number to its decimal text.
    pub shown: Map<u64, Seq<char>>,
    /// An operator and two operands to the result.
    pub computed: Map<(Operator, u64, u64), u64>,
}

impl Table {
    /// Whether the table has an answer to a question.
    pub open spec fn knows(self, q: Ask) -> bool {
        match q {
            Ask::Parse(s) => self.parsed.contains_key(s),
            Ask::Show(n) => self.shown.contains_key(n),
            Ask::Compute(op, a, b) => self.computed.contains_key((op, a, b)),
        }
    }

    /// The table without an answer.
    pub open spec fn empty() -> Table {
        Table { parsed: Map::empty(), shown: Map::empty(), computed: Map::empty() }
    }

    /// The number that `text` denotes, `None` where it denotes none, or the
    /// question where the table does not know.
    pub open spec fn parse(self, text: Seq<char>) -> Result<Option<u64>, Halt> {
        if self.parsed.contains_key(text) {
            Ok(self.parsed[text])
        } else {
            Err(Halt::Unanswered(Ask::Parse(text)))
        }
    }

    /// How `n` is written, or the question where the table does not know.
    pub open spec fn show(self, n: u64) -> Result<Seq<char>, Halt> {
        if self.shown.contains_key(n) {
            Ok(self.shown[n])
        } else {
            Err(Halt::Unanswered(Ask::Show(n)))
        }
    }

    /// What `op` gives for `a` and `b`, or the question where the table does
    /// not know.
    pub open spec fn compute(self, op: Operator, a: u64, b: u64) -> Result<u64, Halt> {
        if self.computed.contains_key((op, a, b)) {
            Ok(self.computed[(op, a, b)])
        } else {
            Err(Halt::Unanswered(Ask::Compute(op, a, b)))
        }
    }
}

/// The answers on texts of a list of answers; the last one for a text counts.
pub open spec fn parsed_of(v: Seq<(String, Option<Number>)>) -> Map<Seq<char>, Option<u64>>
    decreases v.len(),
{
    if v.len() == 0 {
        Map::empty()
    } else {
        parsed_of(v.drop_last()).insert(
            v.last().0@,
            match v.last().1 {
                Some(n) => Some(n.bits),
                None => None,
            },
        )
    }
}

/// The answers on numbers of a list of answers; the last one for a number counts.
pub open spec fn shown_of(v: Seq<(Number, String)>) -> Map<u64, Seq<char>>
    decreases v.len(),
{
    if v.len() == 0 {
        Map::empty()
    } else {
        shown_of(v.drop_last()).insert(v.last().0.bits, v.last().1@)
    }
}

/// The answers on arithmetic of a list of answers; the last one for a question counts.
pub open spec fn computed_of(v: Seq<(Operator, Number, Number, Number)>) -> Map<
    (Operator, u64, u64),
    u64,
>
    decreases v.len(),
{
    if v.len() == 0 {
        Map::empty()
    } else {
        computed_of(v.drop_last()).insert(
            (v.last().0, v.last().1.bits, v.last().2.bits),
            v.last().3.bits,
        )
    }
}

/// The answers that the caller has supplied so far. A later answer to the same
/// question replaces an earlier one.
pub struct Numerics {
    parsed: Vec<(String, Option<Number>)>,
    shown: Vec<(Number, String)>,
    computed: Vec<(Operator, Number, Number, Number)>,
}

impl View for Numerics {
    type V = Table;

    closed spec fn view(&self) -> Table {
        Table {
            parsed: parsed_of(self.parsed@),
            shown: shown_of(self.shown@),
            computed: computed_of(self.computed@),
        }
    }
}

impl Numerics {
    /// A table without an answer.
    pub fn new() -> (r: Numerics)
        ensures
            r@ == Table::empty(),
    {
        Numerics { parsed: Vec::new(), shown: Vec::new(), computed: Vec::new() }
    }

    /// Records which number `text` denotes, or that it denotes none.
    pub fn record_parse(&mut self, text: &str, value: Option<Number>)
        ensures
            final(self)@ == (Table {
                parsed: old(self)@.parsed.insert(
                    text@,
                    match value {
                        Some(n) => Some(n.bits),
                        None => None,
                    },
                ),
                ..old(self)@
            }),
    {
        let owned = text.to_owned();
        self.parsed.push((owned, value));
        assert(self.parsed@.drop_last() =~= old(self).parsed@);
    }

    /// Records how `n` is written.
    pub fn record_show(&mut self, n: Number, text: &str)
        ensures
            final(self)@ == (Table { shown: old(self)@.shown.insert(n.bits, text@), ..old(self)@ }),
    {
        let owned = text.to_owned();
        self.shown.push((n, owned));
        assert(self.shown@.drop_last() =~= old(self).shown@);
    }

    /// Records that `op` gives `result` for `a` and `b`.
    pub fn record_compute(&mut self, op: Operator, a: Number, b: Number, result: Number)
        ensures
            final(self)@ == (Table {
                computed: old(self)@.computed.insert((op, a.bits, b.bits), result.bits),
                ..old(self)@
            }),
    {
        self.computed.push((op, a, b, result));
        assert(self.computed@.drop_last() =~= old(self).computed@);
    }

    /// The number that `text` denotes according to the table.
    pub fn parse(&self, text: &str) -> (r: Result<Option<Number>, Stop>)
        ensures
            match r {
                Ok(Some(n)) => self@.parse(text@) == Ok::<_, Halt>(Some(n.bits)),
                Ok(None) => self@.parse(text@) == Ok::<Option<u64>, Halt>(None),
                Err(e) => self@.parse(text@) == Err::<Option<u64>, _>(e@),
            },
    {
        let mut i: usize = self.parsed.len();
        assert(self.parsed@.take(i as int) =~= self.parsed@);
        while i > 0
            invariant
                i <= self.parsed.len(),
                parsed_of(self.parsed@).contains_key(text@) == parsed_of(
                    self.parsed@.take(i as int),
                ).contains_key(text@),
                parsed_of(self.parsed@).contains_key(text@) ==> parsed_of(self.parsed@)[text@]
                    == parsed_of(self.parsed@.take(i as int))[text@],
            decreases i,
        {
            i -= 1;
            assert(self.parsed@.take(i + 1).drop_last() =~= self.parsed@.take(i as int));
            if str_eq(self.parsed[i].0.as_str(), text) {
                return Ok(self.parsed[i].1);
            }
        }
        assert(self.parsed@.take(0) =~= Seq::empty());
        Err(Stop::Unanswered(Request::Parse(text.to_owned())))
    }

    /// The text of `n` according to the table.
    pub fn show(&self, n: Number) -> (r: Result<String, Stop>)
        ensures
            match r {
                Ok(s) => self@.show(n.bits) == Ok::<_, Halt>(s@),
                Err(e) => self@.show(n.bits) == Err::<Seq<char>, _>(e@),
            },
    {
        let mut i: usize = self.shown.len();
        assert(self.shown@.take(i as int) =~= self.shown@);
        while i > 0
            invariant
                i <= self.shown.len(),
                shown_of(self.shown@).contains_key(n.bits) == shown_of(
                    self.shown@.take(i as int),
                ).contains_key(n.bits),
                shown_of(self.shown@).contains_key(n.bits) ==> shown_of(self.shown@)[n.bits]
                    == shown_of(self.shown@.take(i as int))[n.bits],
            decreases i,
        {
            i -= 1;
            assert(self.shown@.take(i + 1).drop_last() =~= self.shown@.take(i as int));
            if self.shown[i].0.bits == n.bits {
                return Ok(self.shown[i].1.clone());
            }
        }
        assert(self.shown@.take(0) =~= Seq::empty());
        Err(Stop::Unanswered(Request::Show(n)))
    }

    /// What `op` gives for `a` and `b` according to the table.
    pub fn compute(&self, op: Operator, a: Number, b: Number) -> (r: Result<Number, Stop>)
        ensures
            match r {
                Ok(n) => self@.compute(op, a.bits, b.bits) == Ok::<_, Halt>(n.bits),
                Err(e) => self@.compute(op, a.bits, b.bits) == Err::<u64, _>(e@),
            },
    {
        let ghost key = (op, a.bits, b.bits);
        let mut i: usize = self.computed.len();
        assert(self.computed@.take(i as int) =~= self.computed@);
        while i > 0
            invariant
                i <= self.computed.len(),
                key == (op, a.bits, b.bits),
                computed_of(self.computed@).contains_key(key) == computed_of(
                    self.computed@.take(i as int),
                ).contains_key(key),
                computed_of(self.computed@).contains_key(key) ==> computed_of(self.computed@)[key]
                    == computed_of(self.computed@.take(i as int))[key],
            decreases i,
        {
            i -= 1;
            assert(self.computed@.take(i + 1).drop_last() =~= self.computed@.take(i as int));
            let e = &self.computed[i];
            if e.0 == op && e.1.bits == a.bits && e.2.bits == b.bits {
                return Ok(e.3);
            }
        }
        assert(self.computed@.take(0) =~= Seq::empty());
        Err(Stop::Unanswered(Request::Compute(op, a, b)))
    }
}

} // verus!
