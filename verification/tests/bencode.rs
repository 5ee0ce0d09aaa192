use mateyship::bencode_parser::{dict, list, number, parse_bencode, string, Bencode, ErrorKind};
use mateyship::dict::Dict;

fn dict_of(pairs: Vec<(Vec<u8>, Bencode)>) -> Dict {
    let mut dict = Dict::new();
    for (key, value) in pairs {
        dict.insert(key, value);
    }
    dict
}

#[test]
fn basic_byte_string() {
    assert_eq!(
        parse_bencode(b"5:hello"),
        Ok((b"" as &[u8], Bencode::ByteString(b"hello".to_vec())))
    );
}

#[test]
fn smaller_length() {
    assert_eq!(
        parse_bencode(b"5:helloworld"),
        Ok((b"world" as &[u8], Bencode::ByteString(b"hello".to_vec())))
    );
}

#[test]
fn empty_string() {
    assert_eq!(
        parse_bencode(b"0:"),
        Ok((b"" as &[u8], Bencode::ByteString(b"".to_vec())))
    );
}

#[test]
fn empty_string_smaller_len() {
    assert_eq!(
        parse_bencode(b"0:world"),
        Ok((b"world" as &[u8], Bencode::ByteString(b"".to_vec())))
    );
}

#[test]
fn whitespace_in_string() {
    assert_eq!(
        parse_bencode(b"11:hello world"),
        Ok((b"" as &[u8], Bencode::ByteString(b"hello world".to_vec())))
    );
}

#[test]
fn long_len() {
    assert_eq!(
        parse_bencode(b"42:helloworldprogrammedtothinkandnottofeeeeel"),
        Ok((
            b"" as &[u8],
            Bencode::ByteString(b"helloworldprogrammedtothinkandnottofeeeeel".to_vec())
        ))
    );
}

#[test]
fn long_len_multiple_whitespace_in_string() {
    assert_eq!(
        parse_bencode(b"50:hello world programmed to think and not to feeeeel"),
        Ok((
            b"" as &[u8],
            Bencode::ByteString(b"hello world programmed to think and not to feeeeel".to_vec())
        ))
    );
}

#[test]
fn negative_len_string() {
    assert!(parse_bencode(b"-2:hello").is_err());
}

#[test]
fn incorrect_len_string() {
    assert!(parse_bencode(b"5:worl").is_err());
}

#[test]
fn invalid_len_string() {
    assert!(parse_bencode(b"5a:hello").is_err());
}

#[test]
fn positive_number() {
    assert_eq!(
        parse_bencode(b"i88e"),
        Ok((b"" as &[u8], Bencode::Number(88)))
    );
}

#[test]
fn zero() {
    assert_eq!(
        parse_bencode(b"i0e"),
        Ok((b"" as &[u8], Bencode::Number(0)))
    );
}

#[test]
fn negative_number() {
    assert_eq!(
        parse_bencode(b"i-88e"),
        Ok((b"" as &[u8], Bencode::Number(-88)))
    );
}

#[test]
fn empty_number() {
    assert!(parse_bencode(b"ie").is_err());
}

#[test]
fn negative_zero() {
    assert!(parse_bencode(b"i-0e").is_err());
}

#[test]
fn positive_leading_zero() {
    assert!(parse_bencode(b"i08e").is_err());
}

#[test]
fn negative_leading_zero() {
    assert!(parse_bencode(b"i-08e").is_err());
}

#[test]
fn positive_multiple_zeroes() {
    assert!(parse_bencode(b"i000e").is_err());
}

#[test]
fn negative_multiple_zeroes() {
    assert!(parse_bencode(b"i-000e").is_err());
}

#[test]
fn only_negative_sign() {
    assert!(parse_bencode(b"i-e").is_err());
}

#[test]
fn basic_list() {
    let bencode_hello = "5:hello";
    let bencode_world = "5:world";

    assert_eq!(
        parse_bencode(format!("l{}{}e", bencode_hello, bencode_world).as_bytes()),
        Ok((
            b"" as &[u8],
            Bencode::List(vec![
                Bencode::ByteString(b"hello".to_vec()),
                Bencode::ByteString(b"world".to_vec())
            ])
        ))
    );
}

#[test]
fn heterogenous_list() {
    let bencode_string = "5:hello";
    let bencode_number = "i8e";

    assert_eq!(
        parse_bencode(format!("l{}{}e", bencode_string, bencode_number).as_bytes()),
        Ok((
            b"" as &[u8],
            Bencode::List(vec![
                Bencode::ByteString(b"hello".to_vec()),
                Bencode::Number(8)
            ])
        ))
    );
}

#[test]
fn multiple_nested_list() {
    let list_one = "l5:hello5:worlde";
    let list_two = "l5:helloi8ee";

    assert_eq!(
        parse_bencode(format!("l{}{}e", list_one, list_two).as_bytes()),
        Ok((
            b"" as &[u8],
            Bencode::List(vec![
                Bencode::List(vec![
                    Bencode::ByteString(b"hello".to_vec()),
                    Bencode::ByteString(b"world".to_vec())
                ]),
                Bencode::List(vec![
                    Bencode::ByteString(b"hello".to_vec()),
                    Bencode::Number(8)
                ])
            ])
        ))
    );
}

#[test]
fn empty_list() {
    assert_eq!(
        parse_bencode(b"le"),
        Ok((b"" as &[u8], Bencode::List(vec![])))
    );
}

#[test]
fn incomplete_list() {
    let bencode_number = "i8e";
    assert!(parse_bencode(format!("l{0}{0}{0}", bencode_number).as_bytes()).is_err());
}

#[test]
fn list_with_invalid_element() {
    let invalid_bencode_string = "-5:hello";

    assert!(parse_bencode(format!("l{}e", invalid_bencode_string).as_bytes()).is_err());
}

#[test]
fn basic_dict() {
    let key_one = "3:bar";
    let val_one = "4:spam";

    let key_two = "3:foo";
    let val_two = "i88e";

    assert_eq!(
        parse_bencode(format!("d{}{}{}{}e", key_one, val_one, key_two, val_two).as_bytes()),
        Ok((
            b"" as &[u8],
            Bencode::Dict(dict_of(vec![
                    (b"bar".to_vec(), Bencode::ByteString(b"spam".to_vec())),
                    (b"foo".to_vec(), Bencode::Number(88)),
            ]))
        ))
    );
}

#[test]
fn empty_dict() {
    assert_eq!(
        parse_bencode(b"de"),
        Ok((b"" as &[u8], Bencode::Dict(Dict::new())))
    );
}

#[test]
fn incomplete_dict() {
    let key_one = "3:foo";

    assert!(parse_bencode(format!("d{}e", key_one).as_bytes()).is_err());
}

#[test]
fn dict_with_invalid_key() {
    let key_one = "-3:foo";
    let val_one = "i88e";

    assert!(parse_bencode(format!("d{}{}e", key_one, val_one).as_bytes()).is_err());
}

#[test]
fn dict_with_invalid_value() {
    let key_one = "3:foo";
    let val_one = "-3:bar";

    assert!(parse_bencode(format!("d{}{}e", key_one, val_one).as_bytes()).is_err());
}

#[test]
fn list_of_dict() {
    let key_one = "3:foo";
    let val_one = "3:bar";

    let key_two = "3:baz";
    let val_two = "3:baz";

    let dict_str = format!("d{}{}{}{}e", key_one, val_one, key_two, val_two);
    let (_, result_dict) = dict(&dict_str.as_bytes()).unwrap();

    assert_eq!(
        parse_bencode(format!("l{0}{0}e", dict_str).as_bytes()),
        Ok((
            b"" as &[u8],
            Bencode::List(vec![
                Bencode::Dict(result_dict.clone()),
                Bencode::Dict(result_dict)
            ])
        ))
    );
}

#[test]
fn dict_of_list() {
    let bencode_hello = "5:hello";
    let bencode_world = "5:world";

    let list_str = format!("l{}{}e", bencode_hello, bencode_world);

    let key_one = "3:foo";
    let key_two = "3:bar";

    let (_, result_list) = list(&list_str.as_bytes()).unwrap();

    assert_eq!(
        parse_bencode(format!("d{}{2}{}{2}e", key_one, key_two, list_str).as_bytes()),
        Ok((
            b"" as &[u8],
            Bencode::Dict(dict_of(vec![
                    (b"foo".to_vec(), Bencode::List(result_list.clone())),
                    (b"bar".to_vec(), Bencode::List(result_list)),
            ]))
        ))
    );
}

#[test]
fn multiple_nested_dicts() {
    let key_one = "3:foo";
    let val_one = "3:bar";

    let key_two = "3:baz";
    let val_two = "3:baz";

    let nested_dict_str = format!("d{}{}{}{}e", key_one, val_one, key_two, val_two);
    let (_, result_nested_dict) = dict(&nested_dict_str.as_bytes()).unwrap();

    assert_eq!(
        parse_bencode(format!("d{}{2}{}{2}e", key_one, key_two, nested_dict_str).as_bytes()),
        Ok((
            b"" as &[u8],
            Bencode::Dict(dict_of(vec![
                    (b"foo".to_vec(), Bencode::Dict(result_nested_dict.clone())),
                    (b"baz".to_vec(), Bencode::Dict(result_nested_dict)),
            ]))
        ))
    );
}

#[test]
fn accessors_return_their_kind_only() {
    assert_eq!(Bencode::Number(7).number(), Some(7));
    assert_eq!(Bencode::Number(7).byte_string(), None);
    assert_eq!(
        Bencode::ByteString(b"x".to_vec()).byte_string(),
        Some(b"x".to_vec())
    );
    assert_eq!(Bencode::ByteString(b"x".to_vec()).number(), None);
    assert_eq!(
        Bencode::List(vec![Bencode::Number(1)]).list(),
        Some(vec![Bencode::Number(1)])
    );
    assert_eq!(Bencode::List(vec![]).dict(), None);
    assert_eq!(Bencode::Dict(Dict::new()).dict(), Some(Dict::new()));
    assert_eq!(Bencode::Dict(Dict::new()).list(), None);
}

#[test]
fn numbers_at_the_limits_of_64_bits() {
    assert_eq!(
        parse_bencode(b"i9223372036854775807e").unwrap().1,
        Bencode::Number(i64::MAX)
    );
    assert_eq!(
        parse_bencode(b"i-9223372036854775808e").unwrap().1,
        Bencode::Number(i64::MIN)
    );
    assert!(parse_bencode(b"i9223372036854775808e").is_err());
    assert!(parse_bencode(b"i-9223372036854775809e").is_err());
}

#[test]
fn a_minus_sign_belongs_in_front() {
    assert!(parse_bencode(b"i8-8e").is_err());
    assert!(parse_bencode(b"i--8e").is_err());
}

#[test]
fn errors_say_where_and_what() {
    let e = parse_bencode(b"x").unwrap_err();
    assert_eq!((e.fatal, e.input, e.kind), (false, b"x" as &[u8], ErrorKind::Tag));

    let e = string(b"x").unwrap_err();
    assert_eq!(
        (e.fatal, e.input, e.kind),
        (false, b"x" as &[u8], ErrorKind::TakeWhile1)
    );

    let e = string(b"3abc").unwrap_err();
    assert_eq!(
        (e.fatal, e.input, e.kind),
        (true, b"abc" as &[u8], ErrorKind::Tag)
    );

    let e = string(b"3:ab").unwrap_err();
    assert_eq!(
        (e.fatal, e.input, e.kind),
        (true, b"ab" as &[u8], ErrorKind::Eof)
    );

    let e = string(b"99999999999999999999999:").unwrap_err();
    assert_eq!((e.fatal, e.kind), (false, ErrorKind::MapRes));

    let e = number(b"i-0e").unwrap_err();
    assert_eq!(
        (e.fatal, e.input, e.kind),
        (true, b"-0e" as &[u8], ErrorKind::MapRes)
    );

    let e = number(b"ie").unwrap_err();
    assert_eq!(
        (e.fatal, e.input, e.kind),
        (true, b"e" as &[u8], ErrorKind::TakeWhile1)
    );

    let e = list(b"li1e").unwrap_err();
    assert_eq!(
        (e.fatal, e.input, e.kind),
        (true, b"" as &[u8], ErrorKind::Tag)
    );
}

#[test]
fn the_last_entry_of_a_key_counts() {
    let (rest, entries) = dict(b"d1:ai1e1:ai2ee!").unwrap();
    assert_eq!(rest, b"!");
    assert_eq!(entries, dict_of(vec![(b"a".to_vec(), Bencode::Number(2))]));
}

#[test]
fn keys_need_not_be_sorted() {
    let (_, sorted) = dict(b"d1:ai1e2:abi2e1:bi3ee").unwrap();
    let (_, unsorted) = dict(b"d1:bi3e2:abi2e1:ai1ee").unwrap();
    assert_eq!(sorted, unsorted);
}

#[test]
fn what_follows_a_value_changes_nothing() {
    for text in ["i-7e", "4:spam", "l4:spami7ee", "d3:keyl1:aee"] {
        let alone = parse_bencode(text.as_bytes()).unwrap().1;
        let longer = format!("{}{}", text, "e5:junk");
        let (rest, value) = parse_bencode(longer.as_bytes()).unwrap();
        assert_eq!(rest, b"e5:junk");
        assert_eq!(value, alone);
    }
}

#[test]
fn dictionary_entries_are_found_and_removed() {
    let mut dict = dict_of(vec![
        (b"b".to_vec(), Bencode::Number(2)),
        (b"a".to_vec(), Bencode::Number(1)),
        (b"c".to_vec(), Bencode::Number(3)),
    ]);
    let copy = dict.clone();
    assert_eq!(dict.remove(b"x"), None);
    assert_eq!(dict, copy);
    assert_eq!(dict.remove(b"b"), Some(Bencode::Number(2)));
    assert_eq!(dict.remove(b"b"), None);
    dict.insert(b"b".to_vec(), Bencode::Number(2));
    assert_eq!(dict, copy);
}

#[test]
fn dictionaries_are_shown_as_maps() {
    let (_, value) = parse_bencode(b"d1:bi2e1:ai1ee").unwrap();
    assert_eq!(
        format!("{:?}", value),
        "Dict({[97]: Number(1), [98]: Number(2)})"
    );
}
