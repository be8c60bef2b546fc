use swap_stream::event::{Address, Decimal, SwapAmounts, SwapDirection, SwapEvent};
use swap_stream::parser::{
    Log, LogParam, ParseError, SwapParser, Token, TokenKind, Uint256, DAI_BASE, DECIMAL_PRECISION,
    USDC_BASE,
};

#[test]
fn dai_to_usdc() {
    let dai = Decimal::new(12345, 2);
    let usdc = Decimal::new(-678, 2);
    let amounts = SwapAmounts { dai, usdc };
    let result = SwapParser::get_direction(&amounts);

    assert!(result.is_ok());
    assert_eq!(result.unwrap(), SwapDirection::DaiToUsdc);
}

#[test]
fn usdc_to_dai() {
    let dai = Decimal::new(-1234, 2);
    let usdc = Decimal::new(6678, 2);
    let amounts = SwapAmounts { dai, usdc };
    let result = SwapParser::get_direction(&amounts);

    assert!(result.is_ok());
    assert_eq!(result.unwrap(), SwapDirection::UsdcToDai);
}

#[test]
fn both_positive() {
    let dai = Decimal::new(12345, 2);
    let usdc = Decimal::new(6789, 2);
    let amounts = SwapAmounts { dai, usdc };
    let result = SwapParser::get_direction(&amounts);

    assert!(result.is_err());
    assert_eq!(
        result.unwrap_err().message(),
        "Swap amounts must have distinct signs, but both are positive".to_string()
    );
}

#[test]
fn both_negative() {
    let dai = Decimal::new(-1234, 2);
    let usdc = Decimal::new(-567, 2);
    let amounts = SwapAmounts { dai, usdc };
    let result = SwapParser::get_direction(&amounts);

    assert!(result.is_err());
    assert_eq!(
        result.unwrap_err().message(),
        "Swap amounts must have distinct signs, but both are negative".to_string()
    );
}

fn little_endian_123() -> Uint256 {
    // the 256-bit value whose 20 low little-endian bytes are all 123
    Uint256 { hi: 0x7b7b7b7b, lo: 0x7b7b7b7b7b7b7b7b7b7b7b7b7b7b7b7b }
}

#[test]
fn parser_ok() {
    let address = Address([123; 20]);
    let log = Log {
        params: vec![LogParam { name: "foo".to_string(), value: Token::Address(address) }],
    };
    let result = SwapParser::get_address(&log, "foo");

    assert!(result.is_ok());
    assert_eq!(result.unwrap(), address);
}

#[test]
fn parser_missing() {
    let address = Address([123; 20]);
    let log = Log {
        params: vec![LogParam { name: "bar".to_string(), value: Token::Address(address) }],
    };
    let result = SwapParser::get_address(&log, "foo");

    assert!(result.is_err());
    assert_eq!(result.unwrap_err().message(), "Missing log param 'foo'".to_string());
}

#[test]
fn parser_unexpected_type() {
    let word = little_endian_123();
    let log = Log {
        params: vec![LogParam { name: "foo".to_string(), value: Token::Int(word) }],
    };
    let result = SwapParser::get_address(&log, "foo");

    assert!(result.is_err());
    assert_eq!(
        result.unwrap_err().message(),
        "Expected log param 'foo' of type 'Address' but got 'Int'".to_string()
    );
}

#[test]
fn parser_int_ok() {
    let word = little_endian_123();
    let log = Log {
        params: vec![LogParam { name: "foo".to_string(), value: Token::Int(word) }],
    };
    let result = SwapParser::get_int(&log, "foo");

    assert!(result.is_ok());
    assert_eq!(result.unwrap(), word);
}

#[test]
fn parser_int_missing() {
    let word = little_endian_123();
    let log = Log {
        params: vec![LogParam { name: "bar".to_string(), value: Token::Int(word) }],
    };
    let result = SwapParser::get_int(&log, "foo");

    assert!(result.is_err());
    assert_eq!(result.unwrap_err().message(), "Missing log param 'foo'".to_string());
}

#[test]
fn parser_int_unexpected_type() {
    let address = Address([123; 20]);
    let log = Log {
        params: vec![LogParam { name: "foo".to_string(), value: Token::Address(address) }],
    };
    let result = SwapParser::get_int(&log, "foo");

    assert!(result.is_err());
    assert_eq!(
        result.unwrap_err().message(),
        "Expected log param 'foo' of type 'Int' but got 'Address'".to_string()
    );
}

#[test]
fn positive() {
    // 15851874999999999770624, the raw form of 15851.87 DAI
    let dai_int = Uint256 { hi: 0, lo: 15851874999999999770624 };
    let dai_dec = Decimal::new(1585187, DECIMAL_PRECISION);

    assert_eq!(dai_dec, SwapParser::to_decimal(dai_int, DAI_BASE));
}

#[test]
fn negative() {
    // 115792089237316195423570985008687907853269984665640564039457584007897279268723,
    // the raw two's-complement form of -15850.37 USDC
    let usdc_int = Uint256 {
        hi: 0xffffffffffffffffffffffffffffffff,
        lo: 0xfffffffffffffffffffffffc4f3e8773,
    };
    let usdc_dec = Decimal::new(-1585037, DECIMAL_PRECISION);

    assert_eq!(usdc_dec, SwapParser::to_decimal(usdc_int, USDC_BASE));
}

#[test]
fn div_rem_carries_across_halves() {
    let word = Uint256 { hi: 1, lo: 5 };
    let (q, r) = word.div_rem_u64(10);
    // (2^128 + 5) divided by 10
    assert_eq!(q, Uint256 { hi: 0, lo: 34028236692093846346337460743176821146 });
    assert_eq!(r, 1);
}

fn swap_log() -> Log {
    Log {
        params: vec![
            LogParam { name: "sender".to_string(), value: Token::Address(Address([1; 20])) },
            LogParam { name: "recipient".to_string(), value: Token::Address(Address([2; 20])) },
            LogParam {
                name: "amount0".to_string(),
                value: Token::Int(Uint256 { hi: 0, lo: 15851874999999999770624 }),
            },
            LogParam {
                name: "amount1".to_string(),
                value: Token::Int(Uint256 {
                    hi: 0xffffffffffffffffffffffffffffffff,
                    lo: 0xfffffffffffffffffffffffc4f3e8773,
                }),
            },
        ],
    }
}

#[test]
fn parse_full_swap() {
    let result = SwapParser::parse(&swap_log());

    assert!(result.is_ok());
    assert_eq!(
        result.unwrap(),
        SwapEvent {
            sender: Address([1; 20]),
            receiver: Address([2; 20]),
            direction: SwapDirection::DaiToUsdc,
            amounts: SwapAmounts {
                dai: Decimal::new(1585187, 2),
                usdc: Decimal::new(1585037, 2),
            },
        }
    );
}

#[test]
fn parse_missing_sender() {
    let mut log = swap_log();
    log.params.remove(0);
    let result = SwapParser::parse(&log);

    assert!(result.is_err());
    assert_eq!(result.unwrap_err().message(), "Missing log param 'sender'".to_string());
}

#[test]
fn parse_wrong_recipient_type() {
    let mut log = swap_log();
    log.params[1].value = Token::Bool(true);
    let result = SwapParser::parse(&log);

    assert!(result.is_err());
    assert_eq!(
        result.unwrap_err(),
        ParseError::UnexpectedType {
            param: "recipient".to_string(),
            expected: TokenKind::Address,
            actual: TokenKind::Bool,
        }
    );
}

#[test]
fn parse_amounts_share_a_sign() {
    let mut log = swap_log();
    log.params[3].value = Token::Int(Uint256 { hi: 0, lo: 10000 });
    let result = SwapParser::parse(&log);

    assert!(result.is_err());
    assert_eq!(result.unwrap_err(), ParseError::BothPositive);
}
