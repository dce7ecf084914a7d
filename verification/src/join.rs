//! Joining bytes into unsigned integers.

use vstd::prelude::*;

verus! {

/// An unsigned integer type of at most 128 bits.
pub trait Unsigned: Sized {
    /// The number that a value of the type stands for.
    spec fn value(self) -> nat;

    /// The largest number that the type holds.
    spec fn max_value() -> nat;

    /// The value as a `u128`.
    fn widen(self) -> (wide: u128)
        ensures
            wide == self.value(),
    ;

    /// The value of the type that stands for `wide`, if the type holds it.
    fn narrow(wide: u128) -> (narrow: Option<Self>)
        ensures
            narrow is Some <==> wide <= Self::max_value(),
            narrow matches Some(v) ==> v.value() == wide,
    ;
}

impl Unsigned for u8 {
    open spec fn value(self) -> nat {
        self as nat
    }

    open spec fn max_value() -> nat {
        u8::MAX as nat
    }

    fn widen(self) -> (wide: u128) {
        self as u128
    }

    fn narrow(wide: u128) -> (narrow: Option<Self>) {
        if wide <= u8::MAX as u128 {
            Some(wide as u8)
        } else {
            None
        }
    }
}

impl Unsigned for u16 {
    open spec fn value(self) -> nat {
        self as nat
    }

    open spec fn max_value() -> nat {
        u16::MAX as nat
    }

    fn widen(self) -> (wide: u128) {
        self as u128
    }

    fn narrow(wide: u128) -> (narrow: Option<Self>) {
        if wide <= u16::MAX as u128 {
            Some(wide as u16)
        } else {
            None
        }
    }
}

impl Unsigned for u32 {
    open spec fn value(self) -> nat {
        self as nat
    }

    open spec fn max_value() -> nat {
        u32::MAX as nat
    }

    fn widen(self) -> (wide: u128) {
        self as u128
    }

    fn narrow(wide: u128) -> (narrow: Option<Self>) {
        if wide <= u32::MAX as u128 {
            Some(wide as u32)
        } else {
            None
        }
    }
}

impl Unsigned for u64 {
    open spec fn value(self) -> nat {
        self as nat
    }

    open spec fn max_value() -> nat {
        u64::MAX as nat
    }

    fn widen(self) -> (wide: u128) {
        self as u128
    }

    fn narrow(wide: u128) -> (narrow: Option<Self>) {
        if wide <= u64::MAX as u128 {
            Some(wide as u64)
        } else {
            None
        }
    }
}

impl Unsigned for u128 {
    open spec fn value(self) -> nat {
        self as nat
    }

    open spec fn max_value() -> nat {
        u128::MAX as nat
    }

    fn widen(self) -> (wide: u128) {
        self
    }

    fn narrow(wide: u128) -> (narrow: Option<Self>) {
        Some(wide)
    }
}

impl Unsigned for usize {
    open spec fn value(self) -> nat {
        self as nat
    }

    open spec fn max_value() -> nat {
        usize::MAX as nat
    }

    fn widen(self) -> (wide: u128) {
        self as u128
    }

    fn narrow(wide: u128) -> (narrow: Option<Self>) {
        if wide <= usize::MAX as u128 {
            Some(wide as usize)
        } else {
            None
        }
    }
}

/// Why bytes could not be joined into a number.
#[derive(Debug, Clone, Copy, PartialEq, Eq)]
pub enum JoinError {
    /// There are more bytes than a `u128` holds.
    TooLong,
    /// The number does not fit into the type that was asked for.
    OutOfRange,
}

/// The number that bytes stand for, most significant byte first.
pub open spec fn be_value(parts: Seq<u8>) -> nat
    decreases parts.len(),
{
    if parts.len() == 0 {
        0
    } else {
        256 * be_value(parts.drop_last()) + parts.last() as nat
    }
}

/// 256 to the power `n`.
pub open spec fn pow256(n: nat) -> nat
    decreases n,
{
    if n == 0 {
        1
    } else {
        256 * pow256((n - 1) as nat)
    }
}

/// The powers of 256 grow.
proof fn lemma_pow256_grows(i: nat, j: nat)
    requires
        i <= j,
    ensures
        1 <= pow256(i) <= pow256(j),
    decreases j,
{
    if i < j {
        lemma_pow256_grows(i, (j - 1) as nat);
    } else if i > 0 {
        lemma_pow256_grows((i - 1) as nat, (j - 1) as nat);
    }
}

/// Sixteen bytes fill a `u128`.
proof fn lemma_pow256_sixteen()
    ensures
        pow256(15) == 0x1_0000_0000_0000_0000_0000_0000_0000_00,
        pow256(16) == u128::MAX + 1,
{
    reveal_with_fuel(pow256, 17);
}

/// The number that `n` bytes stand for is below 256 to the power `n`.
proof fn lemma_be_value_bound(parts: Seq<u8>)
    ensures
        be_value(parts) < pow256(parts.len()),
    decreases parts.len(),
{
    if parts.len() > 0 {
        lemma_be_value_bound(parts.drop_last());
    }
}

/// Joins bytes, most significant first, into an unsigned integer. Fewer
/// bytes than the type has stand for a number with leading zero bytes.
pub fn array_to_unsigned<T: Unsigned>(parts: &[u8]) -> (res: Result<T, JoinError>)
    ensures
        parts@.len() > 16 ==> res == Err::<T, JoinError>(JoinError::TooLong),
        parts@.len() <= 16 && be_value(parts@) > T::max_value() ==> res == Err::<T, JoinError>(
            JoinError::OutOfRange,
        ),
        parts@.len() <= 16 && be_value(parts@) <= T::max_value() ==> res is Ok,
        res matches Ok(v) ==> v.value() == be_value(parts@),
{
    if parts.len() > 16 {
        return Err(JoinError::TooLong);
    }
    let mut ri: u128 = 0;
    let mut i: usize = 0;
    while i < parts.len()
        invariant
            i <= parts@.len() <= 16,
            ri == be_value(parts@.take(i as int)),
        decreases parts@.len() - i,
    {
        proof {
            lemma_be_value_bound(parts@.take(i as int));
            lemma_pow256_grows(i as nat, 15);
            lemma_pow256_sixteen();
            assert(parts@.take(i + 1).drop_last() =~= parts@.take(i as int));
        }
        ri = ri * 256 + parts[i] as u128;
        i += 1;
    }
    proof {
        assert(parts@.take(i as int) =~= parts@);
    }
    match T::narrow(ri) {
        Some(v) => Ok(v),
        None => Err(JoinError::OutOfRange),
    }
}

} // verus!
