use clap::error::{ContextKind, ContextValue, ErrorKind};
use clap::{Arg, Command};
use proto_gen::error::GenError;
use proto_gen::kv::{parse_key_value, parse_ref};
use std::collections::HashSet;

#[test]
fn happy_case_kv() {
    let _cmd = Command::new("any");
    let a: Option<&Arg> = None;
    let value = "key:value".as_bytes();
    let (key, value) = parse_ref(a.map(ToString::to_string).as_ref(), value).unwrap();
    assert_eq!("key", &key);
    assert_eq!("value", &value);
}

#[test]
fn sad_case_bad_kv_no_arg() {
    let _cmd = Command::new("any");
    let a: Option<&Arg> = None;
    let value = "key-value".as_bytes();
    let Err(e) = parse_ref(a.map(ToString::to_string).as_ref(), value) else {
        panic!("Expected error on bad kv");
    };
    assert_eq!(ErrorKind::ValueValidation, e.error.kind());
    let mut expect_ctx = HashSet::new();
    expect_ctx.insert(ContextKind::InvalidValue);
    expect_ctx.insert(ContextKind::Usage);
    for (kind, _ctx) in e.error.context() {
        assert!(expect_ctx.remove(&kind));
    }
    assert!(expect_ctx.is_empty());
}

#[test]
fn sad_case_bad_kv_with_arg() {
    let _cmd = Command::new("any");
    let a = Some(Arg::new("my_id"));
    let value = "key-value".as_bytes();
    let Err(e) = parse_ref(a.as_ref().map(ToString::to_string).as_ref(), value) else {
        panic!("Expected error on bad kv");
    };
    assert_eq!(ErrorKind::ValueValidation, e.error.kind());
    let mut expect_ctx = HashSet::new();
    expect_ctx.insert(ContextKind::InvalidArg);
    expect_ctx.insert(ContextKind::InvalidValue);
    expect_ctx.insert(ContextKind::Usage);
    for (kind, _ctx) in e.error.context() {
        assert!(expect_ctx.remove(&kind));
    }
    assert!(expect_ctx.is_empty());
}

#[test]
fn os_str_not_utf8_no_arg() {
    let _cmd = Command::new("any");
    let a: Option<&Arg> = None;
    let value = b"\xc3\x28";
    let Err(e) = parse_ref(a.map(ToString::to_string).as_ref(), value) else {
        panic!("Expected error on bad kv");
    };
    assert_eq!(ErrorKind::ValueValidation, e.error.kind());
    let mut expect_ctx = HashSet::new();
    expect_ctx.insert(ContextKind::Usage);
    expect_ctx.insert(ContextKind::InvalidValue);
    for (kind, _ctx) in e.error.context() {
        assert!(expect_ctx.remove(&kind));
    }
    assert!(expect_ctx.is_empty());
}

#[test]
fn os_str_not_utf8_with_arg() {
    let _cmd = Command::new("any");
    let a = Some(Arg::new("my_id"));
    let value = b"\xc3\x28";
    let Err(e) = parse_ref(a.as_ref().map(ToString::to_string).as_ref(), value) else {
        panic!("Expected error on bad kv");
    };
    assert_eq!(ErrorKind::ValueValidation, e.error.kind());
    let mut expect_ctx = HashSet::new();
    expect_ctx.insert(ContextKind::Usage);
    expect_ctx.insert(ContextKind::InvalidValue);
    expect_ctx.insert(ContextKind::InvalidArg);
    for (kind, _ctx) in e.error.context() {
        assert!(expect_ctx.remove(&kind));
    }
    assert!(expect_ctx.is_empty());
}

#[test]
fn refusal_says_what_was_wrong() {
    let arg = Arg::new("my_id").to_string();
    let e = parse_ref(Some(&arg), b"key-value").unwrap_err().error;
    assert_eq!(Some(&ContextValue::String(arg.clone())), e.get(ContextKind::InvalidArg));
    assert_eq!(
        Some(&ContextValue::String("key-value".to_string())),
        e.get(ContextKind::InvalidValue)
    );
    assert_eq!(
        Some("KV-pair must contain exactly one `:`.".to_string()),
        e.get(ContextKind::Usage).map(ToString::to_string)
    );
    assert!(matches!(e.get(ContextKind::Usage), Some(ContextValue::StyledStr(_))));
    let e = parse_ref(Some(&arg), b"\xc3\x28").unwrap_err().error;
    assert_eq!(Some(&ContextValue::String(arg)), e.get(ContextKind::InvalidArg));
    assert_eq!(Some(&ContextValue::None), e.get(ContextKind::InvalidValue));
    assert_eq!(
        Some("Both key and value of KV-pair must be valid UTF-8.".to_string()),
        e.get(ContextKind::Usage).map(ToString::to_string)
    );
    let e = parse_ref(None, b"").unwrap_err().error;
    assert_eq!(None, e.get(ContextKind::InvalidArg));
    assert_eq!(Some(&ContextValue::String(String::new())), e.get(ContextKind::InvalidValue));
}

#[test]
fn key_and_value_are_parted_at_the_one_colon() {
    assert_eq!(Ok(("key".to_string(), "value".to_string())), parse_key_value(b"key:value"));
    assert_eq!(
        Ok((".".to_string(), "#[derive(Debug)]".to_string())),
        parse_key_value(b".:#[derive(Debug)]")
    );
    assert_eq!(Ok((String::new(), String::new())), parse_key_value(b":"));
    assert_eq!(Ok(("a".to_string(), String::new())), parse_key_value(b"a:"));
    assert_eq!(Ok((String::new(), "b".to_string())), parse_key_value(b":b"));
    assert_eq!(
        Ok(("cl\u{e9}".to_string(), "\u{1F600}".to_string())),
        parse_key_value("cl\u{e9}:\u{1F600}".as_bytes())
    );
}

#[test]
fn pair_without_colon_is_refused() {
    assert_eq!(Err(GenError::NotOneColon), parse_key_value(b"key-value"));
    assert_eq!(Err(GenError::NotOneColon), parse_key_value(b""));
}

#[test]
fn pair_with_more_than_one_colon_is_refused() {
    assert_eq!(Err(GenError::NotOneColon), parse_key_value(b"a:b:c"));
    assert_eq!(Err(GenError::NotOneColon), parse_key_value(b"::"));
    assert_eq!(Err(GenError::NotOneColon), parse_key_value(b"a::"));
    assert_eq!(
        Err(GenError::NotOneColon),
        parse_key_value(b".:#[derive(serde::Serialize)]")
    );
    let e = parse_ref(None, b"a:b:c").unwrap_err().error;
    assert_eq!(ErrorKind::ValueValidation, e.kind());
    assert_eq!(Some(&ContextValue::String("a:b:c".to_string())), e.get(ContextKind::InvalidValue));
    assert_eq!(
        Some("KV-pair must contain exactly one `:`.".to_string()),
        e.get(ContextKind::Usage).map(ToString::to_string)
    );
}

#[test]
fn pair_that_is_no_text_is_refused() {
    assert_eq!(Err(GenError::NotUnicode), parse_key_value(b"\xc3\x28"));
    assert_eq!(Err(GenError::NotUnicode), parse_key_value(b"key:\xff"));
}
