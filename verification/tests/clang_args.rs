use cadrum::clang::{parse_args, ArgError};

fn args(v: &[&str]) -> Vec<String> {
    v.iter().map(|s| s.to_string()).collect()
}

#[test]
fn full_command_line() {
    let inv = parse_args(&args(&[
        "clang.wasm", "--dir", "./in::/in", "--dir", "./out::/out", "--", "clang", "-c", "/in/t.cpp",
    ]))
    .unwrap();
    assert_eq!(inv.wasm, "clang.wasm");
    assert_eq!(inv.preopens.len(), 2);
    assert_eq!(inv.preopens[0].host, "./in");
    assert_eq!(inv.preopens[0].guest, "/in");
    assert_eq!(inv.preopens[1].host, "./out");
    assert_eq!(inv.preopens[1].guest, "/out");
    assert_eq!(inv.clang_args, args(&["clang", "-c", "/in/t.cpp"]));
}

#[test]
fn dir_splits_at_the_first_double_colon() {
    let inv = parse_args(&args(&["w", "--dir", "a::b::c", "--", "clang"])).unwrap();
    assert_eq!(inv.preopens[0].host, "a");
    assert_eq!(inv.preopens[0].guest, "b::c");
}

#[test]
fn refusals() {
    assert!(matches!(parse_args(&args(&[])), Err(ArgError::MissingWasm)));
    assert!(matches!(parse_args(&args(&["w", "--dir"])), Err(ArgError::DirNeedsSpec)));
    assert!(matches!(parse_args(&args(&["w", "--dir", "a:b", "--", "clang"])), Err(ArgError::DirSpecMalformed)));
    assert!(matches!(parse_args(&args(&["w", "-x"])), Err(ArgError::UnexpectedArg(ref s)) if s == "-x"));
    assert!(matches!(parse_args(&args(&["w", "--"])), Err(ArgError::NoClangArgs)));
    assert!(matches!(parse_args(&args(&["w"])), Err(ArgError::NoClangArgs)));
}

#[test]
fn everything_after_the_separator_goes_to_clang() {
    let inv = parse_args(&args(&["w", "--", "--dir", "x::y"])).unwrap();
    assert!(inv.preopens.is_empty());
    assert_eq!(inv.clang_args, args(&["--dir", "x::y"]));
}
