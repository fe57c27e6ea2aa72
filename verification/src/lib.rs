use vstd::prelude::*;

pub mod codec;
pub mod digits;
pub mod text;

verus! {

/// Number of satoshis that make up one bitcoin.
pub const SATS_PER_BITCOIN: u64 = 100_000_000;

/// Errors that turning text into an amount can report.
#[derive(Clone, Copy, Debug, PartialEq, Eq, Structural)]
pub enum Error {
    /// The text is not a syntactically valid decimal number.
    InvalidDecimalFormat,
    /// The text is not a valid non-negative 64-bit integer literal.
    InvalidSmallestUnitFormat,
}

/// An amount of bitcoin, stored as a count of satoshis (the smallest
/// indivisible unit, 10^8 of which make one bitcoin).
///
/// The type has value semantics: every operation returns a new value and
/// nothing mutates in place.
#[derive(Clone, Copy, Debug, PartialEq, Eq, Structural)]
pub struct BitcoinQuantity(u64);

impl View for BitcoinQuantity {
    type V = u64;

    closed spec fn view(&self) -> u64 {
        self.0
    }
}

impl BitcoinQuantity {
    /// Wraps a satoshi count verbatim; total, never fails.
    pub fn from_satoshi(sats: u64) -> (q: Self)
        ensures
            q@ == sats,
    {
        BitcoinQuantity(sats)
    }

    /// Returns the stored satoshi count unchanged.
    pub fn satoshi(self) -> (sats: u64)
        ensures
            sats == self@,
    {
        self.0
    }

    /// Adds two amounts. Monetary totals must not wrap silently, so the
    /// caller has to know that the sum fits in 64 bits.
    pub fn add(self, rhs: Self) -> (r: Self)
        requires
            self@ + rhs@ <= u64::MAX,
        ensures
            r@ == self@ + rhs@,
    {
        BitcoinQuantity(self.0 + rhs.0)
    }

    /// Subtracts `rhs` from `self`. A negative amount cannot be
    /// represented, so the caller has to know that `rhs` is no larger.
    pub fn sub(self, rhs: Self) -> (r: Self)
        requires
            rhs@ <= self@,
        ensures
            r@ == self@ - rhs@,
    {
        BitcoinQuantity(self.0 - rhs.0)
    }
}

impl PartialOrd for BitcoinQuantity {
    /// Amounts are totally ordered by their satoshi count.
    fn partial_cmp(&self, other: &Self) -> (r: Option<core::cmp::Ordering>) {
        if self.0 < other.0 {
            Some(core::cmp::Ordering::Less)
        } else if self.0 == other.0 {
            Some(core::cmp::Ordering::Equal)
        } else {
            Some(core::cmp::Ordering::Greater)
        }
    }
}

impl vstd::std_specs::cmp::PartialOrdSpecImpl for BitcoinQuantity {
    open spec fn obeys_partial_cmp_spec() -> bool {
        true
    }

    open spec fn partial_cmp_spec(&self, other: &Self) -> Option<core::cmp::Ordering> {
        if self@ < other@ {
            Some(core::cmp::Ordering::Less)
        } else if self@ == other@ {
            Some(core::cmp::Ordering::Equal)
        } else {
            Some(core::cmp::Ordering::Greater)
        }
    }
}

/// Adding an amount and then subtracting it again returns the original
/// amount: if `s` is what `a.add(b)` returned and `d` is what `s.sub(b)`
/// returned, then `d == a`.
pub proof fn lemma_add_sub_round_trip(
    a: BitcoinQuantity,
    b: BitcoinQuantity,
    s: BitcoinQuantity,
    d: BitcoinQuantity,
)
    requires
        a@ + b@ <= u64::MAX,
        s@ == a@ + b@,
        d@ == s@ - b@,
    ensures
        d == a,
{
}

/// Wrapping a satoshi count and reading it back yields the same count:
/// if `q` is what `from_satoshi(n)` returned and `s` is what `q.satoshi()`
/// returned, then `s == n`.
pub proof fn lemma_satoshi_round_trip(n: u64, q: BitcoinQuantity, s: u64)
    requires
        q@ == n,
        s == q@,
    ensures
        s == n,
{
}

} // verus!
