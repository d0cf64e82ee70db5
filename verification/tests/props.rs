//! Scenario tests for the grammar's stated behavior: literal examples,
//! all-or-nothing decoding, escape-table order, the hash toggle, and the
//! input/output name classification.

use rust_demangle::decode;
use rust_demangle::demangle_line;
use rust_demangle::demangle_names;
use rust_demangle::render;
use rust_demangle::DecodedName;
use rust_demangle::InputType;
use rust_demangle::OutputType;
use rust_demangle::PathError;
use rust_demangle::PathState;

fn bytes_of(s: &str) -> Vec<u8> {
    s.as_bytes().to_vec()
}

fn line_str(line: &str, include_hash: bool) -> String {
    String::from_utf8(demangle_line(&bytes_of(line), include_hash)).unwrap()
}

#[test]
fn literal_examples() {
    assert_eq!(
        line_str("_ZN7example4main17h0db00b8b32acffd5E", true),
        "example::main::h0db00b8b32acffd5"
    );
    assert_eq!(line_str("_ZN7example4main17h0db00b8b32acffd5E", false), "example::main");
    // a 5-character segment fails the 17-character hash pattern and stays
    assert_eq!(line_str("_ZN3foo5h05afE", true), "foo::h05af");
    assert_eq!(line_str("_ZN3foo5h05afE", false), "foo::h05af");
}

#[test]
fn embedding_preservation() {
    let line = "prefix _ZN3foo17h05af221e174051e9E suffix";
    assert_eq!(line_str(line, false), "prefix foo suffix");
    assert_eq!(line_str(line, true), "prefix foo::h05af221e174051e9 suffix");
}

#[test]
fn all_or_nothing_decode() {
    // length field announces more bytes than remain
    assert!(decode(&bytes_of("_ZN9abcE")).is_none());
    assert_eq!(line_str("_ZN9abcE", true), "_ZN9abcE");
    // a zero length field anywhere but right before the end is invalid
    assert!(decode(&bytes_of("_ZN3foo0abcE")).is_none());
    assert_eq!(line_str("_ZN3foo0abcE", false), "_ZN3foo0abcE");
}

#[test]
fn escape_marker_substitution() {
    assert_eq!(line_str("_ZN5$LT$xE", true), "<x");
    // an unknown marker shape leaves the rest of its segment verbatim,
    // while the token as a whole still decodes
    assert_eq!(line_str("_ZN5$XX$xE", true), "$XX$x");
    // ... and later segments are still substituted normally
    assert_eq!(line_str("_ZN5$XX$x5$GT$yE", true), "$XX$x::>y");
}

#[test]
fn escape_table_complete() {
    let token = "_ZN4$SP$4$BP$4$RF$4$LT$4$GT$4$LP$4$RP$3$C$5$u7e$5$u20$5$u27$5$u5b$5$u5d$E";
    assert_eq!(line_str(token, true), "@::*::&::<::>::(::)::,::~:: ::'::[::]");
}

#[test]
fn hash_toggle() {
    let name = DecodedName {
        segments: vec![bytes_of("example"), bytes_of("main")],
        hash: Some(bytes_of("h0db00b8b32acffd5")),
    };
    assert_eq!(render(&name, true), bytes_of("example::main::h0db00b8b32acffd5"));
    assert_eq!(render(&name, false), bytes_of("example::main"));
    let plain = DecodedName { segments: vec![bytes_of("example"), bytes_of("main")], hash: None };
    assert_eq!(render(&plain, true), bytes_of("example::main"));
    assert_eq!(render(&plain, false), bytes_of("example::main"));
}

#[test]
fn zero_terminal_marker() {
    // a zero length field right before the end is the terminal marker
    assert_eq!(line_str("_ZN3foo0E", true), "foo");
    assert_eq!(line_str("_ZN3foo0E", false), "foo");
    assert_eq!(line_str("_ZN0E", true), "");
}

#[test]
fn bare_prefix_tolerated() {
    assert_eq!(line_str("ZN3fooE", false), "foo");
    assert_eq!(line_str("ZN3fooE", true), "foo");
}

#[test]
fn long_trailing_segment_is_not_a_hash() {
    assert_eq!(line_str("_ZN3foo20h05af221e174051e9abcE", true), "foo::h05af221e174051e9abc");
    assert_eq!(line_str("_ZN3foo20h05af221e174051e9abcE", false), "foo::h05af221e174051e9abc");
}

#[test]
fn rescan_of_decoded_output_is_stable() {
    let once = line_str("_ZN7example4main17h0db00b8b32acffd5E", false);
    assert_eq!(line_str(&once, false), once);
    let with_hash = line_str("_ZN7example4main17h0db00b8b32acffd5E", true);
    assert_eq!(line_str(&with_hash, true), with_hash);
}

#[test]
fn names_decode_one_per_line() {
    let names = vec![
        bytes_of("_ZN7example4main17h0db00b8b32acffd5E"),
        bytes_of("plain"),
        bytes_of("_ZN3foo17h05af221e174051e9E"),
    ];
    let out = demangle_names(&names, false);
    assert_eq!(String::from_utf8(out).unwrap(), "example::main\nplain\nfoo\n");
    let out_hash = demangle_names(&names, true);
    assert_eq!(
        String::from_utf8(out_hash).unwrap(),
        "example::main::h0db00b8b32acffd5\nplain\nfoo::h05af221e174051e9\n"
    );
}

#[test]
fn input_name_classification() {
    assert!(matches!(
        InputType::from_name(bytes_of("-"), PathState::Missing),
        Ok(InputType::Stdin)
    ));
    assert!(matches!(
        InputType::from_name(bytes_of("log.txt"), PathState::RegularFile),
        Ok(InputType::File(_))
    ));
    assert_eq!(
        InputType::validate(bytes_of("log.txt"), PathState::Missing),
        Err(PathError::DoesNotExist)
    );
    assert_eq!(
        InputType::validate(bytes_of("somedir"), PathState::NotRegular),
        Err(PathError::NotAFile)
    );
    assert_eq!(InputType::validate(bytes_of("-"), PathState::Missing), Ok(()));
    assert_eq!(InputType::validate(bytes_of("log.txt"), PathState::RegularFile), Ok(()));
}

#[test]
fn output_name_classification() {
    assert!(matches!(OutputType::from_name(bytes_of("-"), true), Ok(OutputType::Stdout)));
    assert!(matches!(OutputType::from_name(bytes_of("out.txt"), false), Ok(OutputType::File(_))));
    assert_eq!(OutputType::validate(bytes_of("out.txt"), true), Err(PathError::AlreadyExists));
    assert_eq!(OutputType::validate(bytes_of("out.txt"), false), Ok(()));
    assert_eq!(OutputType::validate(bytes_of("-"), true), Ok(()));
}
