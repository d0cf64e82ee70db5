//! Line and stream scanning over the corpus of mangled names.

use rust_demangle::decode;
use rust_demangle::demangle_line;
use rust_demangle::demangle_stream;
use rust_demangle::render;

fn mangled_names() -> Vec<&'static str> {
    vec![
        "_ZN55_$LT$$RF$$u27$a$u20$T$u20$as$u20$core..fmt..Display$GT$3fmt17h510ed05e72307174E",
        "_ZN7example4main17h0db00b8b32acffd5E",
        "_ZN3std2io5stdio6_print17he48522be5b0a80d9E",
        "_ZN3foo17h05af221e174051e9E",
        "_ZN3foo20h05af221e174051e9abcE",
        "_ZN3foo5h05afE",
        "_ZN109_$LT$core..str..pattern..CharSearcher$LT$$u27$a$GT$$u20$as$u20$core..str..pattern..Searcher$LT$$u27$a$GT$$GT$10next_match17h9c8d80a58da7cd74E",
        "_ZN84_$LT$core..iter..Map$LT$I$C$$u20$F$GT$$u20$as$u20$core..iter..iterator..Iterator$GT$4next17h98ea4751a6975428E",
        "_ZN51_$LT$serde_json..read..IteratorRead$LT$Iter$GT$$GT$15parse_str_bytes17h8199b7867f1a334fE",
        "_ZN3std11collections4hash3map11RandomState3new4KEYS7__getit5__KEY17h1bc0dbd302b9f01bE",
        // names of the newer scheme: recognized spans, passed through undecoded
        "_RNvNtNtCs1234_7mycrate3foo3bar3baz",
        "_RNvNvMCs1234_7mycrateINtCs1234_7mycrate3FoopE3bar4QUUX",
        "_RNvNvXCs1234_7mycrateINtCs1234_7mycrate3FoopENtNtC3std5clone5Clone5clone4QUUX",
        "_RNvNvCs1234_7mycrate4QUUX3FOO",
    ]
}

fn line_str(line: &str, include_hash: bool) -> String {
    String::from_utf8(demangle_line(&line.as_bytes().to_vec(), include_hash)).unwrap()
}

/// One whole name decoded directly, with no line scanning: the reference
/// the scanning results are held against.
fn name_str(name: &str, include_hash: bool) -> String {
    let v = name.as_bytes().to_vec();
    let out = match decode(&v) {
        Some(d) => render(&d, include_hash),
        None => v,
    };
    String::from_utf8(out).unwrap()
}

#[test]
fn ignores_text() {
    for text in &["boom de yada\tboom de yada\n", "bananas are fun for everyone"] {
        assert_eq!(line_str(text, false), *text);
        assert_eq!(line_str(text, true), *text);
    }
}

#[test]
fn standalone_demangles() {
    for name in mangled_names() {
        assert_eq!(line_str(name, true), name_str(name, true));
    }
}

#[test]
fn standalone_demangles_nohash() {
    for name in mangled_names() {
        assert_eq!(line_str(name, false), name_str(name, false));
    }
}

#[test]
fn not_noop_demangles() {
    for name in mangled_names() {
        if name.starts_with("_ZN") {
            assert_ne!(line_str(name, false), name);
        }
    }
}

fn contexts() -> Vec<(&'static str, &'static str)> {
    vec![
        // x86 ASM
        ("        lea     rax, [rip + ", "]"),
        ("        call    ", "@PLT"),
        // perf script output
        ("                  1a680e ", " (/home/user/git/steven-rust/target/debug/steven)"),
        ("                  20039f ", " (/home/user/git/steven-rust/target/debug/steven)"),
        ("                  1dade8 ", " (/home/user/git/steven-rust/target/debug/steven)"),
        // shell pipelines full of brackets and backslashes
        ("cat out.txt | grep -o \"\\\\\\[[(].*\\\\\\[", "\\])][^)\\]]*$\""),
        ("\\\\\\\\\\\\\\\\", "\\\\\\\\\\\\\\\\"),
    ]
}

fn test_embedded_line_demangle<F1, F2>(line_demangler: F1, demangler: F2)
where
    F1: Fn(&str) -> String,
    F2: Fn(&str) -> String,
{
    for name in mangled_names() {
        for (before, after) in contexts() {
            let line = format!("{}{}{}", before, name, after);
            let expected = format!("{}{}{}", before, demangler(name), after);
            assert_eq!(line_demangler(&line), expected);
        }
    }
}

#[test]
fn embedded_demangle() {
    test_embedded_line_demangle(|line| line_str(line, false), |name| name_str(name, false));
}

#[test]
fn embedded_demangle_nohash() {
    test_embedded_line_demangle(|line| line_str(line, true), |name| name_str(name, true));
}

#[test]
fn stream_without_newlines() {
    let tab_mangled = mangled_names().join("\t");

    let stream_demangled = demangle_stream(&tab_mangled.as_bytes().to_vec(), true);

    let split_demangled: Vec<_> = stream_demangled.split(|&b| b == b'\t').collect();
    assert_eq!(mangled_names().len(), split_demangled.len());

    for (mangled, demangled) in mangled_names().iter().zip(split_demangled) {
        assert_eq!(demangled, name_str(mangled, true).as_bytes());
    }
}

#[test]
fn stream_keeps_line_terminators() {
    let input = "_ZN7example4main17h0db00b8b32acffd5E\r\nplain text\n_ZN3fooE";
    let out = demangle_stream(&input.as_bytes().to_vec(), false);
    assert_eq!(
        String::from_utf8(out).unwrap(),
        "example::main\r\nplain text\nfoo"
    );
}

#[test]
fn stream_of_lines_matches_per_line_scan() {
    let input = "lead _ZN3foo5h05afE\n_ZN9abcE mid\n";
    let out = demangle_stream(&input.as_bytes().to_vec(), true);
    let expected = format!(
        "{}{}",
        line_str("lead _ZN3foo5h05afE\n", true),
        line_str("_ZN9abcE mid\n", true)
    );
    assert_eq!(String::from_utf8(out).unwrap(), expected);
}
