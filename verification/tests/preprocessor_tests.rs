use metrowrap::constants::FUNCTION_PREFIX;
use metrowrap::preprocessor::{
    decimal_string, is_ident_byte, join_path, scan_identifier, scan_quoted_string,
    skip_whitespace, try_parse_macro, Preprocessor,
};

fn pp() -> Preprocessor {
    Preprocessor {
        asm_dir_prefix: None,
    }
}

fn stub_text(bytes: Vec<u8>) -> String {
    String::from_utf8(bytes).unwrap()
}

#[test]
fn test_preprocessor_new() {
    let none_pp = Preprocessor::new(None);
    assert_eq!(none_pp.asm_dir_prefix, None);

    let some_pp = Preprocessor::new(Some("/test".to_string()));
    assert_eq!(some_pp.asm_dir_prefix, Some("/test".to_string()));
}

#[test]
fn test_find_macro_refs_whitespace() {
    let inline = "#include \"common.h\"\nINCLUDE_ASM(\"tests/data\", Add);\n";
    let multiline =
        "#include \"common.h\"\nINCLUDE_ASM(\n    \"tests/data\"   ,\n    Add\n    );\n";
    let (segs_a, refs_a) = pp().find_macro_refs(inline.as_bytes());
    let (segs_b, refs_b) = pp().find_macro_refs(multiline.as_bytes());
    assert_eq!(refs_a, refs_b);
    assert_eq!(segs_a.len(), segs_b.len());
}

#[test]
fn test_skip_whitespace() {
    assert_eq!(skip_whitespace(b"   hello", 0), 3);
    assert_eq!(skip_whitespace(b"hello", 0), 0);
    assert_eq!(skip_whitespace(b" \t\n\r x", 0), 5);
    assert_eq!(skip_whitespace(b"", 0), 0);
}

#[test]
fn test_scan_quoted_string() {
    assert_eq!(
        scan_quoted_string(b"\"hello\" rest", 0),
        Some((7, b"hello".as_slice()))
    );
    assert_eq!(scan_quoted_string(b"no quote", 0), None);
    assert_eq!(scan_quoted_string(b"\"unterminated", 0), None);
    assert_eq!(
        scan_quoted_string(b"\"\" empty", 0),
        Some((2, b"".as_slice()))
    );
}

#[test]
fn test_is_ident_byte() {
    assert!(is_ident_byte(b'a'));
    assert!(is_ident_byte(b'Z'));
    assert!(is_ident_byte(b'0'));
    assert!(is_ident_byte(b'$'));
    assert!(is_ident_byte(b'_'));
    assert!(!is_ident_byte(b' '));
    assert!(!is_ident_byte(b'('));
}

#[test]
fn test_scan_identifier() {
    assert_eq!(
        scan_identifier(b"Add rest", 0),
        Some((3, b"Add".as_slice()))
    );
    assert_eq!(
        scan_identifier(b"foo$bar_9", 0),
        Some((9, b"foo$bar_9".as_slice()))
    );
    assert_eq!(scan_identifier(b"(nope", 0), None);
    assert_eq!(scan_identifier(b"", 0), None);
}

#[test]
fn test_try_parse_macro_asm() {
    let input = b"INCLUDE_ASM(\"some/dir\", MyFunc)";
    let result = try_parse_macro(input, 0);
    assert!(result.is_some());
    let (end, dir, name) = result.unwrap();
    assert_eq!(end, input.len());
    assert_eq!(dir, b"some/dir");
    assert_eq!(name, b"MyFunc");
}

#[test]
fn test_try_parse_macro_rodata() {
    let input = b"INCLUDE_RODATA(\"data/rodata\", my_const)";
    let result = try_parse_macro(input, 0);
    assert!(result.is_some());
    let (end, dir, name) = result.unwrap();
    assert_eq!(end, input.len());
    assert_eq!(dir, b"data/rodata");
    assert_eq!(name, b"my_const");
}

#[test]
fn test_try_parse_macro_with_whitespace() {
    let input = b"INCLUDE_ASM(  \"dir\"  ,  Name  )";
    let result = try_parse_macro(input, 0);
    assert!(result.is_some());
    let (_, dir, name) = result.unwrap();
    assert_eq!(dir, b"dir");
    assert_eq!(name, b"Name");
}

#[test]
fn test_try_parse_macro_invalid() {
    assert!(try_parse_macro(b"INCLUDE_OTHER(\"x\", y)", 0).is_none());
    assert!(try_parse_macro(b"INCLUDE_ASM \"x\", y)", 0).is_none());
    assert!(try_parse_macro(b"INCLUDE_ASM(x, y)", 0).is_none());
    assert!(try_parse_macro(b"INCLUDE_ASM(\"x\" y)", 0).is_none());
}

#[test]
fn test_scanner_skips_non_macro_include() {
    let input = b"INCLUDE_GUARD\nINCLUDE_ASM(\"dir\", Func)\n";
    let (segments, refs) = pp().find_macro_refs(input);
    assert_eq!(refs.len(), 1);
    assert_eq!(segments.len(), 2);
    assert_eq!(refs[0].1, "Func");
    assert!(segments[0].starts_with(b"INCLUDE_GUARD"));
}

#[test]
fn test_stub_for_text_only() {
    let stub = stub_text(Preprocessor::stub_for("MyFunc", 12, &[]));
    assert!(stub.contains(&format!("asm void {FUNCTION_PREFIX}MyFunc()")));
    assert_eq!(3, stub.lines().filter(|l| l.trim() == "nop").count());
    assert!(!stub.contains("unsigned char"));
}

#[test]
fn test_stub_for_rodata_only() {
    let syms = vec![("my_const".to_string(), 16, false)];
    let stub = stub_text(Preprocessor::stub_for("my_const", 0, &syms));
    assert!(!stub.contains("asm void"));
    assert!(stub.contains("const unsigned char my_const[16]"));
    assert!(!stub.contains("static"));
}

#[test]
fn test_stub_for_text_and_rodata() {
    let syms = vec![
        ("greeting".to_string(), 6, false),
        ("local_data".to_string(), 4, true),
    ];
    let stub = stub_text(Preprocessor::stub_for("AsmWithRodata", 24, &syms));
    assert!(stub.contains(&format!("asm void {FUNCTION_PREFIX}AsmWithRodata()")));
    assert_eq!(6, stub.lines().filter(|l| l.trim() == "nop").count());
    assert!(stub.contains("const unsigned char greeting[6]"));
    assert!(stub.contains("static const unsigned char local_data[4]"));
}

#[test]
fn test_stub_for_dollar_escape() {
    let syms = vec![("foo$bar".to_string(), 4, true)];
    let stub = stub_text(Preprocessor::stub_for("Fn", 4, &syms));
    assert!(stub.contains("foo__dollar__bar"), "got: {stub}");
    assert!(!stub.contains("foo$bar"), "got: {stub}");
}

#[test]
fn test_stub_exact_text() {
    let syms = vec![("a.b".to_string(), 1024, false)];
    let stub = stub_text(Preprocessor::stub_for("F", 8, &syms));
    assert_eq!(
        stub,
        "asm void ___mw___F() {\n  nop\n  nop\n}\nconst unsigned char a__at__b[1024] = {0};\n"
    );
}

#[test]
fn test_find_macro_refs_paths_and_segments() {
    let src = "int a;\nINCLUDE_ASM(\"asm/f\", Foo);\nint b;\nINCLUDE_RODATA(\"asm/d\", bar);\n";
    let pre = Preprocessor::new(Some("root".to_string()));
    let (segments, refs) = pre.find_macro_refs(src.as_bytes());
    assert_eq!(refs.len(), 2);
    assert_eq!(refs[0], ("root/asm/f/Foo.s".to_string(), "Foo"));
    assert_eq!(refs[1], ("root/asm/d/bar.s".to_string(), "bar"));
    assert_eq!(segments.len(), 3);
    assert_eq!(segments[0], b"int a;\n");
    assert_eq!(segments[1], b";\nint b;\n");
    assert_eq!(segments[2], b";\n");
    // The segments with the macro calls put back between them give the source back.
    let rebuilt = [
        segments[0],
        b"INCLUDE_ASM(\"asm/f\", Foo)".as_slice(),
        segments[1],
        b"INCLUDE_RODATA(\"asm/d\", bar)".as_slice(),
        segments[2],
    ]
    .concat();
    assert_eq!(rebuilt, src.as_bytes());
}

#[test]
fn test_absolute_prefix_and_dir() {
    let pre = Preprocessor::new(Some("/base".to_string()));
    let (_, refs) = pre.find_macro_refs(b"INCLUDE_ASM(\"/abs/dir\", F)");
    assert_eq!(refs[0].0, "/abs/dir/F.s");
    let (_, refs) = pre.find_macro_refs(b"INCLUDE_ASM(\"rel/\", F)");
    assert_eq!(refs[0].0, "/base/rel/F.s");
}

#[test]
fn test_join_path_and_decimal() {
    assert_eq!(join_path("a", "b"), "a/b");
    assert_eq!(join_path("a/", "b"), "a/b");
    assert_eq!(join_path("", "b"), "b");
    assert_eq!(join_path("a", "/b"), "/b");
    assert_eq!(decimal_string(0), "0");
    assert_eq!(decimal_string(4096), "4096");
}

#[test]
fn test_try_parse_macro_past_the_end() {
    assert!(try_parse_macro(b"INCLUDE_ASM(\"a\", f)", 100).is_none());
    assert!(try_parse_macro(b"INCLUDE_", 8).is_none());
}
