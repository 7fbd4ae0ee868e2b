use torrent_bootstrap::bencode::{BencodeDictionary, BencodeInteger, BencodeList, BencodeString, BencodeToken, Parser};

#[test]
fn decode_integer_zero_should_succeed() {
    let input = b"i0e";
    let token = Parser::decode(input);
    let token = token.unwrap();

    let expected = BencodeToken::Integer(
        BencodeInteger {
            value: 0,
            start_position: 0,
            continuation_position: input.len()
        }
    );

    assert_eq!(expected, token);
}

#[test]
fn decode_integer_leading_zero_for_zero_should_fail() {
    let input = b"i00e";
    let token = Parser::decode(input);
    assert!(token.is_err())
}

#[test]
fn decode_integer_invalid_character_on_positive_digit() {
    let input = b"i05e";
    let token = Parser::decode(input);
    assert!(token.is_err())
}

#[test]
fn decode_integer_max_i128_should_succeed() {
    let input = b"i170141183460469231731687303715884105727e";
    let token = Parser::decode(input);
    let token = token.unwrap();

    let expected = BencodeToken::Integer(
        BencodeInteger {
            value: i128::MAX,
            start_position: 0,
            continuation_position: input.len()
        }
    );

    assert_eq!(expected, token);
}

#[test]
fn decode_integer_positive_overflow_integer_multiply_should_fail() {
    let input = b"i1701411834604692317316873037158841057270e";
    let token = Parser::decode(input);
    assert!(token.is_err())
}

#[test]
fn decode_integer_positive_overflow_integer_add_should_fail() {
    let input = b"i170141183460469231731687303715884105728e";
    let token = Parser::decode(input);
    assert!(token.is_err())
}

#[test]
fn decode_integer_negative_zero_should_fail() {
    let input = b"i-0e";
    let token = Parser::decode(input);
    assert!(token.is_err())
}

#[test]
fn decode_integer_unexpected_eof_should_fail() {
    let input = b"i5";
    let token = Parser::decode(input);
    assert!(token.is_err())
}

#[test]
fn decode_integer_positive_integer_with_invalid_character_should_fail() {
    let input = b"i5xe";
    let token = Parser::decode(input);
    assert!(token.is_err())
}

#[test]
fn decode_integer_negative_integer_with_invalid_character_should_fail() {
    let input = b"i-5xe";
    let token = Parser::decode(input);
    assert!(token.is_err())
}

#[test]
fn decode_integer_min_i128_should_succeed() {
    let input = b"i-170141183460469231731687303715884105728e";
    let token = Parser::decode(input);
    let token = token.unwrap();

    let expected = BencodeToken::Integer(
        BencodeInteger {
            value: i128::MIN,
            start_position: 0,
            continuation_position: input.len()
        }
    );

    assert_eq!(expected, token);
}

#[test]
fn decode_integer_negative_overflow_integer_multiply_should_fail() {
    let input = b"i-1701411834604692317316873037158841057280e";
    let token = Parser::decode(input);
    assert!(token.is_err())
}

#[test]
fn decode_integer_negative_overflow_integer_sub_should_fail() {
    let input = b"i-170141183460469231731687303715884105729e";
    let token = Parser::decode(input);
    assert!(token.is_err())
}

#[test]
fn decode_integer_invalid_first_digit_should_fail() {
    let input = b"ixe";
    let token = Parser::decode(input);
    assert!(token.is_err())
}

#[test]
fn decode_integer_invalid_last_digit_should_fail() {
    let input = b"i0x";
    let token = Parser::decode(input);
    assert!(token.is_err())
}

#[test]
fn decode_integer_invalid_first_character_should_fail() {
    let input = b"x";
    let token = Parser::decode_integer(input, 0);
    assert!(token.is_err())
}

#[test]
fn decode_integer_missing_digits_should_fail() {
    let input = b"ie";
    let token = Parser::decode(input);
    assert!(token.is_err())
}

#[test]
fn decode_string_empty_string_should_succeed() {
    let input = b"0:";
    let token = Parser::decode(input);
    let token = token.unwrap();

    let expected = BencodeToken::String(
        BencodeString {
            value: Vec::with_capacity(0),
            start_position: 0,
            continuation_position: input.len()
        }
    );

    assert_eq!(expected, token);
}

#[test]
fn decode_string_basic_string_should_succeed() {
    let input = b"10:helloworld";
    let token = Parser::decode(input);
    let token = token.unwrap();

    let expected = BencodeToken::String(
        BencodeString {
            value: b"helloworld".to_vec(),
            start_position: 0,
            continuation_position: input.len()
        }
    );

    assert_eq!(expected, token);
}

#[test]
fn decode_string_negative_string_should_fail() {
    let input = b"-10:helloworld";
    let token = Parser::decode(input);
    assert!(token.is_err())
}

#[test]
fn decode_string_negative_leading_zero_string_should_fail() {
    let input = b"-00:";
    let token = Parser::decode(input);
    assert!(token.is_err())
}

#[test]
fn decode_string_negative_zero_string_should_fail() {
    let input = b"-0:";
    let token = Parser::decode(input);
    assert!(token.is_err())
}

#[test]
fn decode_string_unexpected_eof_in_character_should_fail() {
    let input = b"10:hello";
    let token = Parser::decode(input);
    assert!(token.is_err())
}

#[test]
fn decode_string_unexpected_eof_in_loop_should_fail() {
    let input = b"10:";
    let token = Parser::decode(input);
    assert!(token.is_err())
}

#[test]
fn decode_string_invalid_first_digit_should_fail() {
    let input = b"x";
    let token = Parser::decode_string(input, 0);
    assert!(token.is_err())
}

#[test]
fn decode_string_invalid_seperator_should_fail() {
    let input = b"10%helloworld";
    let token = Parser::decode(input);
    assert!(token.is_err())
}

#[test]
fn decode_string_positive_overflow_integer_multiply_should_fail() {
    // Note: This method uses usize, but this may fail on systems that are not 64-bit.
    let input = b"184467440737095516150:";
    let token = Parser::decode(input);
    assert!(token.is_err())
}

#[test]
fn decode_string_positive_overflow_integer_add_should_fail() {
    // Note: This method uses usize, but this may fail on systems that are not 64-bit.
    let input = b"18446744073709551616:";
    let token = Parser::decode(input);
    assert!(token.is_err())
}

#[test]
fn decode_string_invalid_seperator_for_zero_should_fail() {
    let input = b"0%";
    let token = Parser::decode(input);
    assert!(token.is_err())
}

#[test]
fn decode_list_zero_elements_should_succeed() {
    let input = b"le";
    let token = Parser::decode(input);
    let token = token.unwrap();

    let expected = BencodeToken::List(
        BencodeList {
            value: Vec::with_capacity(0),
            start_position: 0,
            continuation_position: input.len()
        }
    );

    assert_eq!(expected, token);
}

#[test]
fn decode_list_multiple_elements_should_succeed() {
    let input = b"l10:helloworld10:helloworlde";
    let token = Parser::decode(input);
    let token = token.unwrap();

    let expected = BencodeToken::List(
        BencodeList {
            value: vec![
                BencodeToken::String(BencodeString { 
                    value: b"helloworld".to_vec(), 
                    start_position: 1, 
                    continuation_position: 14
                }),
                BencodeToken::String(BencodeString { 
                    value: b"helloworld".to_vec(), 
                    start_position: 14, 
                    continuation_position: 27
                })
            ],
            start_position: 0,
            continuation_position: input.len()
        }
    );

    assert_eq!(expected, token);
}

#[test]
fn decode_list_invalid_first_character_should_fail() {
    let input = b"0";
    let token = Parser::decode_list(input, 0);
    assert!(token.is_err())
}

#[test]
fn decode_list_unexpected_eof_should_fail() {
    let input = b"l";
    let token = Parser::decode(input);
    assert!(token.is_err())
}

#[test]
fn decode_list_if_character_entry_is_invalid_should_fail() {
    let input = b"lxe";
    let token = Parser::decode_list(input, 0);
    assert!(token.is_err())
}

#[test]
fn decode_list_if_entry_is_invalid_should_fail() {
    let input = b"l10:helloe";
    let token = Parser::decode_list(input, 0);
    assert!(token.is_err())
}

#[test]
fn decode_dictionary_single_entry_should_succeed() {
    let input = b"d10:helloworld10:helloworlde";
    let token = Parser::decode(input);
    let token = token.unwrap();

    let expected = BencodeToken::Dictionary(
        BencodeDictionary {
            keys: vec![
                BencodeString { 
                    value: b"helloworld".to_vec(), 
                    start_position: 1, 
                    continuation_position: 14
                }
            ],
            values: vec![
                BencodeToken::String(BencodeString { 
                    value: b"helloworld".to_vec(), 
                    start_position: 14, 
                    continuation_position: 27
                })
            ],
            start_position: 0,
            continuation_position: input.len()
        }
    );

    assert_eq!(expected, token);
}

#[test]
fn decode_dictionary_multiple_entry_should_succeed() {
    let input = b"d10:helloworld10:helloworld10:worldhello10:worldhelloe";
    let token = Parser::decode(input);
    let token = token.unwrap();

    let expected = BencodeToken::Dictionary(
        BencodeDictionary {
            keys: vec![
                BencodeString { 
                    value: b"helloworld".to_vec(), 
                    start_position: 1, 
                    continuation_position: 14
                },
                BencodeString { 
                    value: b"worldhello".to_vec(), 
                    start_position: 27, 
                    continuation_position: 40
                }
            ],
            values: vec![
                BencodeToken::String(BencodeString { 
                    value: b"helloworld".to_vec(), 
                    start_position: 14, 
                    continuation_position: 27
                }),
                BencodeToken::String(BencodeString { 
                    value: b"worldhello".to_vec(), 
                    start_position: 40, 
                    continuation_position: 53
                })
            ],
            start_position: 0,
            continuation_position: input.len()
        }
    );

    assert_eq!(expected, token);
}

#[test]
fn decode_dictionary_unexpected_key_character_should_fail() {
    let input = b"dxe";
    let token = Parser::decode(input);
    assert!(token.is_err())
}

#[test]
fn decode_dictionary_unexpected_key_invalid_should_fail() {
    let input = b"d10:helloe";
    let token = Parser::decode(input);
    assert!(token.is_err())
}

#[test]
fn decode_dictionary_unexpected_value_character_should_fail() {
    let input = b"d10:helloworldxe";
    let token = Parser::decode(input);
    assert!(token.is_err())
}

#[test]
fn decode_dictionary_unexpected_value_invalid_should_fail() {
    let input = b"d10:helloworld10:helloe";
    let token = Parser::decode(input);
    assert!(token.is_err())
}

#[test]
fn decode_dictionary_unexpected_first_character_should_fail() {
    let input = b"x";
    let token = Parser::decode_dictionary(input, 0);
    assert!(token.is_err())
}

#[test]
fn decode_dictionary_unexpected_eof_should_fail() {
    let input = b"d";
    let token = Parser::decode(input);
    assert!(token.is_err())
}

#[test]
fn decode_dictionary_unsorted_keys_should_fail() {
    let input = b"d3:bca2:ba3:abc2:bae";
    let result = Parser::decode(input);
    assert_eq!(true, result.is_err());
}

#[test]
fn decode_dictionary_duplicate_keys_should_fail() {
    let input = b"d3:cow4:eggs3:cow4:eggse";
    let result = Parser::decode(input);
    assert_eq!(true, result.is_err());
}

#[test]
fn decode_any_unexpected_eof_should_fail() {
    let input = b"d";
    let result = Parser::decode_any(input, 1);
    assert_eq!(true, result.is_err());
}

#[test]
fn decode_remaining_bytes_should_fail() {
    let input = b"10:helloworld10:helloworld";
    let result = Parser::decode(input);
    assert_eq!(true, result.is_err());
}
