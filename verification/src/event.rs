use vstd::prelude::*;

verus! {

/// A 160-bit account identifier, held as its 20 big-endian bytes.
#[derive(Debug, Clone, Copy, PartialEq, Eq)]
pub struct Address(pub [u8; 20]);

/// A signed fixed-point number `mantissa / 10^scale`, sized like the 96-bit
/// decimal values the swap amounts are carried in.
#[derive(Debug, Clone, Copy, PartialEq, Eq)]
pub struct Decimal {
    pub mantissa: i128,
    pub scale: u32,
}

impl Decimal {
    /// The mantissa fits in 96 bits and the scale keeps at most 28
    /// fractional digits.
    pub open spec fn wf(self) -> bool {
        &&& -0x1000000000000000000000000 < self.mantissa < 0x1000000000000000000000000
        &&& self.scale <= 28
    }

    /// The same number with its sign dropped.
    pub open spec fn abs_spec(self) -> Decimal {
        Decimal {
            mantissa: if self.mantissa < 0 {
                (-self.mantissa) as i128
            } else {
                self.mantissa
            },
            scale: self.scale,
        }
    }

    /// The number `num / 10^scale`.
    pub fn new(num: i64, scale: u32) -> (r: Decimal)
        requires
            scale <= 28,
        ensures
            r == (Decimal { mantissa: num as i128, scale }),
            r.wf(),
    {
        Decimal { mantissa: num as i128, scale }
    }

    /// The number `num / 10^scale`, for a mantissa that fits in 96 bits.
    pub fn from_i128_with_scale(num: i128, scale: u32) -> (r: Decimal)
        requires
            scale <= 28,
            -0x1000000000000000000000000 < num < 0x1000000000000000000000000,
        ensures
            r == (Decimal { mantissa: num, scale }),
            r.wf(),
    {
        Decimal { mantissa: num, scale }
    }

    /// Whether the number is non-negative.
    pub fn is_sign_positive(&self) -> (r: bool)
        ensures
            r == (self.mantissa >= 0),
    {
        self.mantissa >= 0
    }

    /// The same number with its sign dropped.
    pub fn abs(&self) -> (r: Decimal)
        requires
            self.mantissa != i128::MIN,
        ensures
            r == self.abs_spec(),
    {
        if self.mantissa < 0 {
            Decimal { mantissa: -self.mantissa, scale: self.scale }
        } else {
            *self
        }
    }
}

/// Which token was paid into the pool.
#[derive(Debug, PartialEq, Eq)]
pub enum SwapDirection {
    DaiToUsdc,
    UsdcToDai,
}

/// The two amounts one swap moved, in DAI and in USDC.
#[derive(Debug, PartialEq, Eq)]
pub struct SwapAmounts {
    pub dai: Decimal,
    pub usdc: Decimal,
}

impl SwapAmounts {
    /// Both amounts with their signs dropped.
    pub open spec fn abs_spec(self) -> SwapAmounts {
        SwapAmounts { dai: self.dai.abs_spec(), usdc: self.usdc.abs_spec() }
    }

    /// Both amounts with their signs dropped.
    pub fn abs(&self) -> (r: SwapAmounts)
        requires
            self.dai.mantissa != i128::MIN,
            self.usdc.mantissa != i128::MIN,
        ensures
            r == self.abs_spec(),
    {
        SwapAmounts { dai: self.dai.abs(), usdc: self.usdc.abs() }
    }
}

/// One decoded swap: who paid, who received, which way, and how much.
#[derive(Debug, PartialEq, Eq)]
pub struct SwapEvent {
    pub sender: Address,
    pub receiver: Address,
    pub direction: SwapDirection,
    pub amounts: SwapAmounts,
}

} // verus!
