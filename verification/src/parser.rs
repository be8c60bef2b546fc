use vstd::prelude::*;

use vstd::arithmetic::div_mod::{lemma_fundamental_div_mod, lemma_fundamental_div_mod_converse};

use vstd::string::StringExecFns;

use crate::event::{Address, Decimal, SwapAmounts, SwapDirection, SwapEvent};

verus! {

/// Number of fractional digits kept on a swap amount.
pub const DECIMAL_PRECISION: u32 = 2;

/// Number of base-ten digits a raw DAI amount carries behind the point.
pub const DAI_BASE: u32 = 18;

/// Number of base-ten digits a raw USDC amount carries behind the point.
pub const USDC_BASE: u32 = 6;

/// `2^128`, the weight of the high half of a 256-bit word.
pub open spec fn pow2_128() -> nat {
    0x10000000000000000 * 0x10000000000000000
}

/// An unsigned 256-bit word, split into a high and a low 128-bit half.
#[derive(Debug, Clone, Copy, PartialEq, Eq)]
pub struct Uint256 {
    pub hi: u128,
    pub lo: u128,
}

/// `10^k`.
pub open spec fn pow10(k: nat) -> nat
    decreases k,
{
    if k == 0 {
        1
    } else {
        10 * pow10((k - 1) as nat)
    }
}

pub proof fn lemma_pow10_pos(k: nat)
    ensures
        pow10(k) >= 1,
    decreases k,
{
    if k > 0 {
        lemma_pow10_pos((k - 1) as nat);
    }
}

pub proof fn lemma_pow10_le(a: nat, b: nat)
    requires
        a <= b,
    ensures
        pow10(a) <= pow10(b),
    decreases b,
{
    lemma_pow10_pos(a);
    if a < b {
        lemma_pow10_le(a, (b - 1) as nat);
    }
}

pub proof fn lemma_pow10_19()
    ensures
        pow10(19) == 10000000000000000000,
{
    reveal_with_fuel(pow10, 21);
}

/// `10^k`, computed for exponents small enough that the power fits a 64-bit
/// word.
pub fn pow10_u64(k: u32) -> (r: u64)
    requires
        k <= 19,
    ensures
        r == pow10(k as nat),
{
    let mut r: u64 = 1;
    let mut i: u32 = 0;
    while i < k
        invariant
            i <= k,
            k <= 19,
            r == pow10(i as nat),
        decreases k - i,
    {
        proof {
            assert(pow10(i as nat + 1) == 10 * pow10(i as nat));
            lemma_pow10_le(i as nat + 1, 19);
            lemma_pow10_19();
        }
        r = r * 10;
        i = i + 1;
    }
    r
}

impl Uint256 {
    /// The value of the word.
    pub open spec fn as_nat(self) -> nat {
        self.hi as nat * 0x100000000000000000000000000000000 + self.lo as nat
    }

    /// The largest value a word can hold: `2^256 - 1`.
    pub open spec fn max_value() -> nat {
        0xffffffffffffffffffffffffffffffff as nat * 0x100000000000000000000000000000000
            + 0xffffffffffffffffffffffffffffffff
    }

    /// Whether the value exceeds `u128::MAX`, the threshold above which a
    /// raw swap amount counts down from the top of the range.
    pub fn exceeds_u128_max(&self) -> (r: bool)
        ensures
            r == (self.as_nat() > u128::MAX),
    {
        proof {
            if self.hi > 0 {
                assert(self.as_nat() >= 0x100000000000000000000000000000000);
            }
        }
        self.hi > 0
    }

    /// The distance to the largest word: `2^256 - 1 - self`.
    pub fn sub_from_max(self) -> (r: Uint256)
        ensures
            r.as_nat() == Self::max_value() - self.as_nat(),
    {
        Uint256 { hi: u128::MAX - self.hi, lo: u128::MAX - self.lo }
    }

    /// Division with remainder by a 64-bit divisor, as a long division over
    /// the word's four 64-bit limbs.
    #[verifier::rlimit(50)]
    pub fn div_rem_u64(self, d: u64) -> (qr: (Uint256, u64))
        requires
            d > 0,
        ensures
            qr.0.as_nat() == self.as_nat() / (d as nat),
            qr.1 == self.as_nat() % (d as nat),
    {
        let dd: u128 = d as u128;
        let l3: u64 = (self.hi / 0x10000000000000000) as u64;
        let l2: u64 = (self.hi % 0x10000000000000000) as u64;
        let l1: u64 = (self.lo / 0x10000000000000000) as u64;
        let l0: u64 = (self.lo % 0x10000000000000000) as u64;
        let c3: u128 = l3 as u128;
        proof {
            assert(c3 < dd * 0x10000000000000000) by (nonlinear_arith)
                requires
                    dd >= 1,
                    c3 < 0x10000000000000000,
            ;
            lemma_limb_quotient_bound(c3 as int, dd as int);
        }
        let q3: u64 = (c3 / dd) as u64;
        let r3: u64 = (c3 % dd) as u64;
        let c2: u128 = (r3 as u128) * 0x10000000000000000 + l2 as u128;
        proof {
            assert(c2 < dd * 0x10000000000000000) by (nonlinear_arith)
                requires
                    c2 == (r3 as int) * 0x10000000000000000 + l2 as int,
                    r3 < dd,
                    (l2 as int) < 0x10000000000000000,
            ;
            lemma_limb_quotient_bound(c2 as int, dd as int);
        }
        let q2: u64 = (c2 / dd) as u64;
        let r2: u64 = (c2 % dd) as u64;
        let c1: u128 = (r2 as u128) * 0x10000000000000000 + l1 as u128;
        proof {
            assert(c1 < dd * 0x10000000000000000) by (nonlinear_arith)
                requires
                    c1 == (r2 as int) * 0x10000000000000000 + l1 as int,
                    r2 < dd,
                    (l1 as int) < 0x10000000000000000,
            ;
            lemma_limb_quotient_bound(c1 as int, dd as int);
        }
        let q1: u64 = (c1 / dd) as u64;
        let r1: u64 = (c1 % dd) as u64;
        let c0: u128 = (r1 as u128) * 0x10000000000000000 + l0 as u128;
        proof {
            assert(c0 < dd * 0x10000000000000000) by (nonlinear_arith)
                requires
                    c0 == (r1 as int) * 0x10000000000000000 + l0 as int,
                    r1 < dd,
                    (l0 as int) < 0x10000000000000000,
            ;
            lemma_limb_quotient_bound(c0 as int, dd as int);
        }
        let q0: u64 = (c0 / dd) as u64;
        let r0: u64 = (c0 % dd) as u64;
        let q = Uint256 {
            hi: (q3 as u128) * 0x10000000000000000 + q2 as u128,
            lo: (q1 as u128) * 0x10000000000000000 + q0 as u128,
        };
        proof {
            let t64: int = 0x10000000000000000;
            let p128: int = pow2_128() as int;
            // each limb step is one exact division: c == (c / dd) * dd + c % dd
            lemma_fundamental_div_mod(c3 as int, dd as int);
            lemma_fundamental_div_mod(c2 as int, dd as int);
            lemma_fundamental_div_mod(c1 as int, dd as int);
            lemma_fundamental_div_mod(c0 as int, dd as int);
            assert(q3 == c3 / dd && r3 == c3 % dd);
            assert(q2 == c2 / dd && r2 == c2 % dd);
            assert(q1 == c1 / dd && r1 == c1 % dd);
            assert(q0 == c0 / dd && r0 == c0 % dd);
            assert(c3 == (q3 as int) * (dd as int) + r3);
            assert(c2 == (q2 as int) * (dd as int) + r2);
            assert(c1 == (q1 as int) * (dd as int) + r1);
            assert(c0 == (q0 as int) * (dd as int) + r0);
            // the halves recombine from their limbs
            assert(self.hi == (l3 as int) * t64 + l2);
            assert(self.lo == (l1 as int) * t64 + l0);
            // the first two limb steps divide the high half
            let qh: int = (q3 as int) * t64 + q2 as int;
            assert(self.hi == qh * dd + r2) by (nonlinear_arith)
                requires
                    self.hi == (l3 as int) * 0x10000000000000000 + l2 as int,
                    c3 == l3 as int,
                    c2 == (r3 as int) * 0x10000000000000000 + l2 as int,
                    c3 == (q3 as int) * (dd as int) + r3 as int,
                    c2 == (q2 as int) * (dd as int) + r2 as int,
                    qh == (q3 as int) * 0x10000000000000000 + q2 as int,
            ;
            // the last two limb steps divide the carried-down low half
            let ql: int = (q1 as int) * t64 + q0 as int;
            let v2: int = (r2 as int) * p128 + self.lo as int;
            assert(v2 == ql * dd + r0) by (nonlinear_arith)
                requires
                    v2 == (r2 as int) * 0x100000000000000000000000000000000 + self.lo,
                    self.lo == (l1 as int) * 0x10000000000000000 + l0 as int,
                    c1 == (r2 as int) * 0x10000000000000000 + l1 as int,
                    c0 == (r1 as int) * 0x10000000000000000 + l0 as int,
                    c1 == (q1 as int) * (dd as int) + r1 as int,
                    c0 == (q0 as int) * (dd as int) + r0 as int,
                    ql == (q1 as int) * 0x10000000000000000 + q0 as int,
            ;
            // put the halves back together
            let big: int = self.as_nat() as int;
            let quot: int = qh * p128 + ql;
            assert(big == quot * dd + r0) by (nonlinear_arith)
                requires
                    big == (self.hi as int) * 0x100000000000000000000000000000000 + self.lo,
                    self.hi == qh * dd + r2 as int,
                    v2 == ql * dd + r0 as int,
                    v2 == (r2 as int) * 0x100000000000000000000000000000000 + self.lo,
                    quot == qh * 0x100000000000000000000000000000000 + ql,
            ;
            assert(q.as_nat() == quot);
            lemma_fundamental_div_mod_converse(big, dd as int, quot, r0 as int);
        }
        (q, r0)
    }
}

/// One digit of a long division stays below the limb bound: a dividend under
/// `d * 2^64` has a quotient under `2^64`.
proof fn lemma_limb_quotient_bound(c: int, d: int)
    requires
        d >= 1,
        0 <= c < d * 0x10000000000000000,
    ensures
        0 <= c / d < 0x10000000000000000,
        0 <= c % d < d,
{
    assert(c / d < 0x10000000000000000) by (nonlinear_arith)
        requires
            d >= 1,
            0 <= c < d * 0x10000000000000000,
    ;
    assert(c / d >= 0) by (nonlinear_arith)
        requires
            d >= 1,
            c >= 0,
    ;
}

/// The scaled mantissa a raw 256-bit amount stands for: values above
/// `u128::MAX` count down from the top of the range as negative numbers, and
/// the magnitude is divided by `10^(base - 2)`, rounding toward zero.
pub open spec fn to_decimal_mantissa(n: nat, base: nat) -> int
    recommends
        2 <= base,
        n <= Uint256::max_value(),
{
    let divisor = pow10((base - 2) as nat);
    if n > u128::MAX {
        -((((Uint256::max_value() - n) as nat / divisor) as int))
    } else {
        (n / divisor) as int
    }
}

/// The scaled mantissa stays within the 96 bits a decimal value can hold.
pub open spec fn decimal_in_range(n: nat, base: nat) -> bool {
    -0x1000000000000000000000000 < to_decimal_mantissa(n, base) < 0x1000000000000000000000000
}

/// Decodes the parameters of one raw swap log into a typed event.
pub struct SwapParser;

impl SwapParser {
    /// Scale a raw 256-bit amount down to a two-digit decimal. Values above
    /// `u128::MAX` are read as negative, counting down from the top of the
    /// range, as the raw swap amounts encode them.
    pub fn to_decimal(n: Uint256, base: u32) -> (r: Decimal)
        requires
            2 <= base <= 21,
            decimal_in_range(n.as_nat(), base as nat),
        ensures
            r.mantissa == to_decimal_mantissa(n.as_nat(), base as nat),
            r.scale == DECIMAL_PRECISION,
    {
        let dp = DECIMAL_PRECISION;
        let k = base - dp;
        let divisor = pow10_u64(k);
        proof {
            lemma_pow10_pos(k as nat);
        }
        let is_negative = n.exceeds_u128_max();
        let m = if is_negative {
            n.sub_from_max()
        } else {
            n
        };
        let (q, _rem) = m.div_rem_u64(divisor);
        proof {
            // the quotient fits 96 bits, so its high half is zero
            if q.hi > 0 {
                assert(q.as_nat() >= 0x100000000000000000000000000000000);
            }
        }
        let mag = q.lo as i128;
        let mantissa = if is_negative {
            -mag
        } else {
            mag
        };
        Decimal::from_i128_with_scale(mantissa, dp)
    }
}

/// One typed value decoded from a log parameter.
#[derive(Debug, PartialEq, Eq)]
pub enum Token {
    Address(Address),
    FixedBytes(Vec<u8>),
    Bytes(Vec<u8>),
    Int(Uint256),
    Uint(Uint256),
    Bool(bool),
    Str(String),
    FixedArray(Vec<Token>),
    Array(Vec<Token>),
    Tuple(Vec<Token>),
}

/// The shape of a token, used to report a mismatched parameter type.
#[derive(Debug, Clone, Copy, PartialEq, Eq)]
pub enum TokenKind {
    Address,
    FixedBytes,
    Bytes,
    Int,
    Uint,
    Bool,
    Str,
    FixedArray,
    Array,
    Tuple,
}

/// The shape of a token.
pub open spec fn kind_of(t: Token) -> TokenKind {
    match t {
        Token::Address(_) => TokenKind::Address,
        Token::FixedBytes(_) => TokenKind::FixedBytes,
        Token::Bytes(_) => TokenKind::Bytes,
        Token::Int(_) => TokenKind::Int,
        Token::Uint(_) => TokenKind::Uint,
        Token::Bool(_) => TokenKind::Bool,
        Token::Str(_) => TokenKind::Str,
        Token::FixedArray(_) => TokenKind::FixedArray,
        Token::Array(_) => TokenKind::Array,
        Token::Tuple(_) => TokenKind::Tuple,
    }
}

/// The name a token shape is reported under.
pub open spec fn kind_name_spec(k: TokenKind) -> Seq<char> {
    match k {
        TokenKind::Address => "Address"@,
        TokenKind::FixedBytes => "FixedBytes"@,
        TokenKind::Bytes => "Bytes"@,
        TokenKind::Int => "Int"@,
        TokenKind::Uint => "Uint"@,
        TokenKind::Bool => "Bool"@,
        TokenKind::Str => "String"@,
        TokenKind::FixedArray => "FixedArray"@,
        TokenKind::Array => "Array"@,
        TokenKind::Tuple => "Tuple"@,
    }
}

/// The name a token shape is reported under.
pub fn kind_name(k: TokenKind) -> (r: &'static str)
    ensures
        r@ == kind_name_spec(k),
{
    match k {
        TokenKind::Address => "Address",
        TokenKind::FixedBytes => "FixedBytes",
        TokenKind::Bytes => "Bytes",
        TokenKind::Int => "Int",
        TokenKind::Uint => "Uint",
        TokenKind::Bool => "Bool",
        TokenKind::Str => "String",
        TokenKind::FixedArray => "FixedArray",
        TokenKind::Array => "Array",
        TokenKind::Tuple => "Tuple",
    }
}

/// One named parameter of a decoded log.
#[derive(Debug, PartialEq, Eq)]
pub struct LogParam {
    pub name: String,
    pub value: Token,
}

/// A decoded log: a list of named, typed parameters.
#[derive(Debug, PartialEq, Eq)]
pub struct Log {
    pub params: Vec<LogParam>,
}

/// Why a swap log could not be read into an event.
#[derive(Debug, PartialEq, Eq)]
pub enum ParseError {
    /// No parameter of the log carries the wanted name.
    MissingParam(String),
    /// The named parameter is there but holds a token of the wrong shape.
    UnexpectedType { param: String, expected: TokenKind, actual: TokenKind },
    /// Both swap amounts are positive, so no direction can be read off.
    BothPositive,
    /// Both swap amounts are negative, so no direction can be read off.
    BothNegative,
}

impl ParseError {
    /// The message text describing the error.
    pub open spec fn message_spec(self) -> Seq<char> {
        match self {
            ParseError::MissingParam(name) => "Missing log param '"@ + name@ + "'"@,
            ParseError::UnexpectedType { param, expected, actual } => "Expected log param '"@
                + param@ + "' of type '"@ + kind_name_spec(expected) + "' but got '"@
                + kind_name_spec(actual) + "'"@,
            ParseError::BothPositive => "Swap amounts must have distinct signs, but both are positive"@,
            ParseError::BothNegative => "Swap amounts must have distinct signs, but both are negative"@,
        }
    }

    /// Render the error as its message text.
    pub fn message(&self) -> (r: String)
        ensures
            r@ == self.message_spec(),
    {
        match self {
            ParseError::MissingParam(name) => {
                let mut s = "Missing log param '".to_owned();
                s.append(name.as_str());
                s.append("'");
                s
            },
            ParseError::UnexpectedType { param, expected, actual } => {
                let mut s = "Expected log param '".to_owned();
                s.append(param.as_str());
                s.append("' of type '");
                s.append(kind_name(*expected));
                s.append("' but got '");
                s.append(kind_name(*actual));
                s.append("'");
                s
            },
            ParseError::BothPositive => {
                "Swap amounts must have distinct signs, but both are positive".to_owned()
            },
            ParseError::BothNegative => {
                "Swap amounts must have distinct signs, but both are negative".to_owned()
            },
        }
    }
}

/// The first parameter carrying `name` at or after position `i`.
pub open spec fn find_param_from(params: Seq<LogParam>, name: Seq<char>, i: int) -> Option<LogParam>
    decreases params.len() - i,
{
    if i < 0 || i >= params.len() {
        None
    } else if params[i].name@ == name {
        Some(params[i])
    } else {
        find_param_from(params, name, i + 1)
    }
}

/// The first parameter carrying `name`, scanning from the front.
pub open spec fn find_param(params: Seq<LogParam>, name: Seq<char>) -> Option<LogParam> {
    find_param_from(params, name, 0)
}

/// The named parameter is present and holds an address.
pub open spec fn has_address_param(params: Seq<LogParam>, name: Seq<char>) -> bool {
    find_param(params, name) matches Some(p) && p.value is Address
}

/// The named parameter is present and holds a signed integer.
pub open spec fn has_int_param(params: Seq<LogParam>, name: Seq<char>) -> bool {
    find_param(params, name) matches Some(p) && p.value is Int
}

/// The address the named parameter holds.
pub open spec fn address_param_value(params: Seq<LogParam>, name: Seq<char>) -> Address
    recommends
        has_address_param(params, name),
{
    find_param(params, name)->Some_0.value->Address_0
}

/// The signed integer the named parameter holds.
pub open spec fn int_param_value(params: Seq<LogParam>, name: Seq<char>) -> Uint256
    recommends
        has_int_param(params, name),
{
    find_param(params, name)->Some_0.value->Int_0
}

/// The two-digit decimal an amount parameter scales to.
pub open spec fn amount_decimal(n: Uint256, base: nat) -> Decimal {
    Decimal { mantissa: to_decimal_mantissa(n.as_nat(), base) as i128, scale: DECIMAL_PRECISION }
}

impl SwapParser {
    /// Build the error for a parameter that holds the wrong token shape.
    fn type_err(name: &str, expected: TokenKind, actual: TokenKind) -> (r: ParseError)
        ensures
            r matches ParseError::UnexpectedType { param, expected: e, actual: a } && param@
                == name@ && e == expected && a == actual,
    {
        ParseError::UnexpectedType { param: name.to_owned(), expected, actual }
    }

    /// Find the parameter carrying `name`, or say that it is missing.
    pub fn get_param<'a>(log: &'a Log, name: &str) -> (r: Result<&'a LogParam, ParseError>)
        ensures
            match r {
                Result::Ok(p) => find_param(log.params@, name@) == Some(*p),
                Result::Err(e) => find_param(log.params@, name@) is None && (e matches
                    ParseError::MissingParam(n) && n@ == name@),
            },
    {
        let name_owned = name.to_owned();
        let n = log.params.len();
        let mut i: usize = 0;
        while i < n
            invariant
                n == log.params.len(),
                i <= n,
                name_owned@ == name@,
                find_param(log.params@, name@) == find_param_from(log.params@, name@, i as int),
            decreases n - i,
        {
            if log.params[i].name == name_owned {
                return Ok(&log.params[i]);
            }
            i = i + 1;
        }
        Err(ParseError::MissingParam(name_owned))
    }

    /// Read the named parameter as an address.
    pub fn get_address(log: &Log, name: &str) -> (r: Result<Address, ParseError>)
        ensures
            match r {
                Result::Ok(a) => find_param(log.params@, name@) matches Some(p) && p.value
                    == Token::Address(a),
                Result::Err(ParseError::MissingParam(n)) => find_param(log.params@, name@) is None
                    && n@ == name@,
                Result::Err(ParseError::UnexpectedType { param, expected, actual }) => find_param(
                    log.params@,
                    name@,
                ) matches Some(p) && !(p.value is Address) && param@ == name@ && expected
                    == TokenKind::Address && actual == kind_of(p.value),
                Result::Err(_) => false,
            },
    {
        let p = match Self::get_param(log, name) {
            Ok(p) => p,
            Err(e) => {
                return Err(e);
            },
        };
        match &p.value {
            Token::Address(address) => Ok(*address),
            Token::FixedBytes(_) => Err(
                Self::type_err(name, TokenKind::Address, TokenKind::FixedBytes),
            ),
            Token::Bytes(_) => Err(Self::type_err(name, TokenKind::Address, TokenKind::Bytes)),
            Token::Int(_) => Err(Self::type_err(name, TokenKind::Address, TokenKind::Int)),
            Token::Uint(_) => Err(Self::type_err(name, TokenKind::Address, TokenKind::Uint)),
            Token::Bool(_) => Err(Self::type_err(name, TokenKind::Address, TokenKind::Bool)),
            Token::Str(_) => Err(Self::type_err(name, TokenKind::Address, TokenKind::Str)),
            Token::FixedArray(_) => Err(
                Self::type_err(name, TokenKind::Address, TokenKind::FixedArray),
            ),
            Token::Array(_) => Err(Self::type_err(name, TokenKind::Address, TokenKind::Array)),
            Token::Tuple(_) => Err(Self::type_err(name, TokenKind::Address, TokenKind::Tuple)),
        }
    }

    /// Read the named parameter as a signed 256-bit integer.
    pub fn get_int(log: &Log, name: &str) -> (r: Result<Uint256, ParseError>)
        ensures
            match r {
                Result::Ok(n) => find_param(log.params@, name@) matches Some(p) && p.value
                    == Token::Int(n),
                Result::Err(ParseError::MissingParam(n)) => find_param(log.params@, name@) is None
                    && n@ == name@,
                Result::Err(ParseError::UnexpectedType { param, expected, actual }) => find_param(
                    log.params@,
                    name@,
                ) matches Some(p) && !(p.value is Int) && param@ == name@ && expected
                    == TokenKind::Int && actual == kind_of(p.value),
                Result::Err(_) => false,
            },
    {
        let p = match Self::get_param(log, name) {
            Ok(p) => p,
            Err(e) => {
                return Err(e);
            },
        };
        match &p.value {
            Token::Int(word) => Ok(*word),
            Token::Address(_) => Err(Self::type_err(name, TokenKind::Int, TokenKind::Address)),
            Token::FixedBytes(_) => Err(
                Self::type_err(name, TokenKind::Int, TokenKind::FixedBytes),
            ),
            Token::Bytes(_) => Err(Self::type_err(name, TokenKind::Int, TokenKind::Bytes)),
            Token::Uint(_) => Err(Self::type_err(name, TokenKind::Int, TokenKind::Uint)),
            Token::Bool(_) => Err(Self::type_err(name, TokenKind::Int, TokenKind::Bool)),
            Token::Str(_) => Err(Self::type_err(name, TokenKind::Int, TokenKind::Str)),
            Token::FixedArray(_) => Err(
                Self::type_err(name, TokenKind::Int, TokenKind::FixedArray),
            ),
            Token::Array(_) => Err(Self::type_err(name, TokenKind::Int, TokenKind::Array)),
            Token::Tuple(_) => Err(Self::type_err(name, TokenKind::Int, TokenKind::Tuple)),
        }
    }

    /// Read the direction off the two signed amounts: the positive one was
    /// paid in; amounts sharing a sign name no direction.
    pub fn get_direction(amounts: &SwapAmounts) -> (r: Result<SwapDirection, ParseError>)
        ensures
            r == (if amounts.dai.mantissa >= 0 && amounts.usdc.mantissa < 0 {
                Result::<SwapDirection, ParseError>::Ok(SwapDirection::DaiToUsdc)
            } else if amounts.dai.mantissa < 0 && amounts.usdc.mantissa >= 0 {
                Result::<SwapDirection, ParseError>::Ok(SwapDirection::UsdcToDai)
            } else if amounts.dai.mantissa >= 0 {
                Result::<SwapDirection, ParseError>::Err(ParseError::BothPositive)
            } else {
                Result::<SwapDirection, ParseError>::Err(ParseError::BothNegative)
            }),
    {
        let dai_pos = amounts.dai.is_sign_positive();
        let usdc_pos = amounts.usdc.is_sign_positive();
        match (dai_pos, usdc_pos) {
            (true, false) => Ok(SwapDirection::DaiToUsdc),
            (false, true) => Ok(SwapDirection::UsdcToDai),
            (true, true) => Err(ParseError::BothPositive),
            (false, false) => Err(ParseError::BothNegative),
        }
    }

    /// Decode one swap log: read the two addresses and the two signed
    /// amounts, scale the amounts to two-digit decimals, read the direction
    /// off their signs, and return the event with the amounts' signs
    /// dropped. Failures are reported in the order the parameters are read.
    pub fn parse(log: &Log) -> (r: Result<SwapEvent, ParseError>)
        requires
            has_int_param(log.params@, "amount0"@) ==> decimal_in_range(
                int_param_value(log.params@, "amount0"@).as_nat(),
                DAI_BASE as nat,
            ),
            has_int_param(log.params@, "amount1"@) ==> decimal_in_range(
                int_param_value(log.params@, "amount1"@).as_nat(),
                USDC_BASE as nat,
            ),
        ensures
            ({
                let ps = log.params@;
                let fs = find_param(ps, "sender"@);
                let fr = find_param(ps, "recipient"@);
                let f0 = find_param(ps, "amount0"@);
                let f1 = find_param(ps, "amount1"@);
                match r {
                    Result::Ok(e) => {
                        &&& has_address_param(ps, "sender"@)
                        &&& has_address_param(ps, "recipient"@)
                        &&& has_int_param(ps, "amount0"@)
                        &&& has_int_param(ps, "amount1"@)
                        &&& e.sender == address_param_value(ps, "sender"@)
                        &&& e.receiver == address_param_value(ps, "recipient"@)
                        &&& ({
                            let dai = amount_decimal(
                                int_param_value(ps, "amount0"@),
                                DAI_BASE as nat,
                            );
                            let usdc = amount_decimal(
                                int_param_value(ps, "amount1"@),
                                USDC_BASE as nat,
                            );
                            &&& (dai.mantissa >= 0) != (usdc.mantissa >= 0)
                            &&& e.direction == (if dai.mantissa >= 0 {
                                SwapDirection::DaiToUsdc
                            } else {
                                SwapDirection::UsdcToDai
                            })
                            &&& e.amounts == (SwapAmounts { dai, usdc }).abs_spec()
                        })
                    },
                    Result::Err(ParseError::MissingParam(n)) => {
                        ||| fs is None && n@ == "sender"@
                        ||| has_address_param(ps, "sender"@) && fr is None && n@ == "recipient"@
                        ||| has_address_param(ps, "sender"@) && has_address_param(
                            ps,
                            "recipient"@,
                        ) && f0 is None && n@ == "amount0"@
                        ||| has_address_param(ps, "sender"@) && has_address_param(
                            ps,
                            "recipient"@,
                        ) && has_int_param(ps, "amount0"@) && f1 is None && n@ == "amount1"@
                    },
                    Result::Err(ParseError::UnexpectedType { param, expected, actual }) => {
                        ||| fs is Some && !(fs->Some_0.value is Address) && param@ == "sender"@
                            && expected == TokenKind::Address && actual == kind_of(
                            fs->Some_0.value,
                        )
                        ||| has_address_param(ps, "sender"@) && fr is Some && !(fr->Some_0.value
                            is Address) && param@ == "recipient"@ && expected == TokenKind::Address
                            && actual == kind_of(fr->Some_0.value)
                        ||| has_address_param(ps, "sender"@) && has_address_param(
                            ps,
                            "recipient"@,
                        ) && f0 is Some && !(f0->Some_0.value is Int) && param@ == "amount0"@
                            && expected == TokenKind::Int && actual == kind_of(f0->Some_0.value)
                        ||| has_address_param(ps, "sender"@) && has_address_param(
                            ps,
                            "recipient"@,
                        ) && has_int_param(ps, "amount0"@) && f1 is Some && !(f1->Some_0.value
                            is Int) && param@ == "amount1"@ && expected == TokenKind::Int && actual
                            == kind_of(f1->Some_0.value)
                    },
                    Result::Err(ParseError::BothPositive) => {
                        &&& has_int_param(ps, "amount0"@)
                        &&& has_int_param(ps, "amount1"@)
                        &&& amount_decimal(int_param_value(ps, "amount0"@), DAI_BASE as nat).mantissa
                            >= 0
                        &&& amount_decimal(int_param_value(ps, "amount1"@), USDC_BASE as nat).mantissa
                            >= 0
                    },
                    Result::Err(ParseError::BothNegative) => {
                        &&& has_int_param(ps, "amount0"@)
                        &&& has_int_param(ps, "amount1"@)
                        &&& amount_decimal(int_param_value(ps, "amount0"@), DAI_BASE as nat).mantissa
                            < 0
                        &&& amount_decimal(int_param_value(ps, "amount1"@), USDC_BASE as nat).mantissa
                            < 0
                    },
                }
            }),
    {
        let sender = match Self::get_address(log, "sender") {
            Ok(a) => a,
            Err(e) => {
                return Err(e);
            },
        };
        let receiver = match Self::get_address(log, "recipient") {
            Ok(a) => a,
            Err(e) => {
                return Err(e);
            },
        };
        let dai = match Self::get_int(log, "amount0") {
            Ok(n) => n,
            Err(e) => {
                return Err(e);
            },
        };
        let usdc = match Self::get_int(log, "amount1") {
            Ok(n) => n,
            Err(e) => {
                return Err(e);
            },
        };
        let amounts = SwapAmounts {
            dai: Self::to_decimal(dai, DAI_BASE),
            usdc: Self::to_decimal(usdc, USDC_BASE),
        };
        let direction = match Self::get_direction(&amounts) {
            Ok(d) => d,
            Err(e) => {
                return Err(e);
            },
        };
        let event = SwapEvent { sender, receiver, direction, amounts: amounts.abs() };
        Ok(event)
    }
}

} // verus!
