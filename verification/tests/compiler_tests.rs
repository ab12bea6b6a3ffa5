use metrowrap::compiler::{
    dependency_file_name, filter_diagnostic_line, rewrite_diagnostic_line, same_resolved, Compiler,
};
use metrowrap::assembler::include_dir;
use metrowrap::makerule::{path_from_wibo, MakeRule};

#[test]
fn test_compiler_init() {
    let compiler = Compiler::new(
        vec!["-gccdep".to_string()],
        "mwcc.exe".to_string(),
        false,
        "wibo".to_string(),
    );
    assert!(compiler.gcc_deps);
}

#[test]
fn test_compiler_flag_detection() {
    let compiler_gcc = Compiler::new(
        vec!["-gccdep".to_string()],
        "mwcc.exe".to_string(),
        false,
        "wibo".to_string(),
    );
    assert!(compiler_gcc.gcc_deps);

    let compiler_no_gcc = Compiler::new(
        vec!["-gccdep".to_string(), "-nogccdep".to_string()],
        "mwcc.exe".to_string(),
        false,
        "wibo".to_string(),
    );
    assert!(!compiler_no_gcc.gcc_deps);
}

#[test]
fn test_filter_unrelated_line() {
    let line = "#   variable 'x' is not initialized before being used";
    let result = filter_diagnostic_line(line, "/tmp/foo.c", "src/foo.c");
    assert_eq!(result, line);
}

#[test]
fn test_filter_in_line_backslash() {
    let line = "#      In: src\\st\\e_grave_keeper.h";
    let result = filter_diagnostic_line(line, "/tmp/foo.c", "src/foo.c");
    assert_eq!(result, "#      In: src/st/e_grave_keeper.h");
}

#[test]
fn test_filter_from_line_backslash() {
    let line = "#    From: src\\st\\are\\foo.c";
    let result = filter_diagnostic_line(line, "/tmp/.tmpXXXX.c", "src/bar.c");
    assert_eq!(result, "#    From: src/st/are/foo.c");
}

#[test]
fn test_filter_from_line_temp_substitution() {
    let temp = "/tmp/.tmpJ8qy3h.c";
    let line = "#    From: /tmp/.tmpJ8qy3h.c";
    let result = filter_diagnostic_line(line, temp, "src/st/are/e_grave_keeper.c");
    assert_eq!(result, "#    From: src/st/are/e_grave_keeper.c");
}

#[test]
fn test_filter_from_line_stdin() {
    let temp = "/tmp/.tmpABCDEF.c";
    let line = "#    From: /tmp/.tmpABCDEF.c";
    let result = filter_diagnostic_line(line, temp, "<stdin>");
    assert_eq!(result, "#    From: <stdin>");
}

#[test]
fn test_filter_real_file() {
    let temp = "tests/data/assemlber.c";
    let line = "#    From: tests\\data\\assemlber.c";
    let result = filter_diagnostic_line(line, temp, "<stdin>");
    assert_eq!(result, "#    From: <stdin>");
}

#[test]
fn test_filter_full_diagnostic_block() {
    let temp = "/tmp/.tmpJ8qy3h.c";
    let display = "src/st/are/e_grave_keeper.c";

    let input_posix = [
        "### mwccpsp.exe Compiler:",
        "#      In: src\\st\\e_grave_keeper.h",
        "#    From: /tmp/.tmpJ8qy3h.c",
        "# --------------------------------",
        "#     135: s32 collisionDetected;",
        "# Warning:     ^^^^^^^^^^^^^^^^^",
        "#   variable 'collisionDetected' is not initialized before being used",
    ];

    let expected = [
        "### mwccpsp.exe Compiler:",
        "#      In: src/st/e_grave_keeper.h",
        "#    From: src/st/are/e_grave_keeper.c",
        "# --------------------------------",
        "#     135: s32 collisionDetected;",
        "# Warning:     ^^^^^^^^^^^^^^^^^",
        "#   variable 'collisionDetected' is not initialized before being used",
    ];

    for (line, want) in input_posix.iter().zip(expected.iter()) {
        assert_eq!(&filter_diagnostic_line(line, temp, display), want);
    }

    let input_posix = [
        "### mwccpsp.exe Compiler:",
        "#    File: src\\st\\e_grave_keeper.h",
        "# --------------------------------",
        "#     135: s32 collisionDetected;",
        "# Warning:     ^^^^^^^^^^^^^^^^^",
        "#   variable 'collisionDetected' is not initialized before being used",
    ];

    let expected = [
        "### mwccpsp.exe Compiler:",
        "#    File: src/st/e_grave_keeper.h",
        "# --------------------------------",
        "#     135: s32 collisionDetected;",
        "# Warning:     ^^^^^^^^^^^^^^^^^",
        "#   variable 'collisionDetected' is not initialized before being used",
    ];

    for (line, want) in input_posix.iter().zip(expected.iter()) {
        assert_eq!(&filter_diagnostic_line(line, temp, display), want);
    }
}

#[test]
fn test_gccdep_last_flag_wins() {
    let flags = vec![
        "-nogccdepends".to_string(),
        "-O2".to_string(),
        "-gccdepends".to_string(),
    ];
    let compiler = Compiler::new(flags, "mwcc.exe".to_string(), true, "wibo".to_string());
    assert!(compiler.gcc_deps);
    let none = Compiler::new(vec!["-O2".to_string()], "mwcc.exe".to_string(), true, "wibo".to_string());
    assert!(!none.gcc_deps);
}

#[test]
fn test_filter_same_file_on_disk() {
    // Two spellings of one existing file: the file system says they are the same.
    let result = filter_diagnostic_line("#    From: ./src/lib.rs", "src/lib.rs", "<stdin>");
    assert_eq!(result, "#    From: <stdin>");
}

#[test]
fn test_rewrite_with_known_answer() {
    let line = "#    From: src\\a.c   ";
    assert_eq!(rewrite_diagnostic_line(line, "/tmp/x.c", "shown.c", true), "#    From: shown.c");
    assert_eq!(rewrite_diagnostic_line(line, "/tmp/x.c", "shown.c", false), "#    From: src/a.c");
    assert_eq!(rewrite_diagnostic_line("#    File: a.c", "a.c", "shown.c", false), "#    File: shown.c");
}

#[test]
fn test_path_from_wibo() {
    assert_eq!(path_from_wibo("Z:\\home\\user\\a.c"), "/home/user/a.c");
    assert_eq!(path_from_wibo("\\\\?\\Z:\\tmp\\b.c"), "/tmp/b.c");
    assert_eq!(path_from_wibo("src\\x.h"), "src/x.h");
    assert_eq!(path_from_wibo("/already/posix"), "/already/posix");
}

#[test]
fn test_compile_args_and_deps() {
    let compiler = Compiler::new(
        vec!["-O2".to_string(), "-MMD".to_string()],
        "mwcc.exe".to_string(),
        false,
        "wibo".to_string(),
    );
    assert_eq!(
        compiler.compile_args("ws/result.o", "a.c"),
        vec!["-c", "-O2", "-MMD", "-o", "ws/result.o", "a.c"]
    );
    assert!(compiler.wants_make_deps());
    let plain = Compiler::new(vec!["-O2".to_string()], "mwcc.exe".to_string(), false, "wibo".to_string());
    assert!(!plain.wants_make_deps());
    assert_eq!(dependency_file_name(".tmpAB.c"), ".tmpAB.d");
}

#[test]
fn test_make_rule_reads_words() {
    let rule = MakeRule::new(b"build/x.o: src/x.c \\\n  include/a.h\n", false).unwrap();
    assert_eq!(rule.target, "build/x.o");
    assert!(rule.source.is_none());
    assert_eq!(rule.dependencies, vec!["src/x.c".to_string(), "include/a.h".to_string()]);
}

#[test]
fn test_make_rule_drops_lone_colon() {
    let rule = MakeRule::new(b"x.o : a.h", false).unwrap();
    assert_eq!(rule.target, "x.o");
    assert_eq!(rule.dependencies, vec!["a.h".to_string()]);
}

#[test]
fn test_make_rule_converts_wibo_paths() {
    let rule = MakeRule::new(b"x.o: Z:\\src\\x.c\n", true).unwrap();
    assert_eq!(rule.dependencies, vec!["/src/x.c".to_string()]);
    let kept = MakeRule::new(b"x.o: Z:\\src\\x.c\n", false).unwrap();
    assert_eq!(kept.dependencies, vec!["Z:\\src\\x.c".to_string()]);
}

#[test]
fn test_make_rule_needs_words() {
    assert!(MakeRule::new(b"  \n", false).is_none());
    assert!(MakeRule::new(&[0xff, 0x3a], false).is_none());
}

#[test]
fn test_make_rule_text_starts_with_target() {
    let rule = MakeRule {
        target: "out.o".to_string(),
        source: Some("src/x.c".to_string()),
        dependencies: vec!["a.h".to_string(), "b.h".to_string()],
    };
    assert_eq!(rule.as_str(), "out.o: src/x.c a.h b.h\n");
    let bare = MakeRule { target: "out.o".to_string(), source: None, dependencies: vec![] };
    assert_eq!(bare.as_str(), "out.o:\n");
}

#[test]
fn test_include_dir_of_macro_file() {
    assert_eq!(include_dir(Some("include/macro.inc")), Some("include".to_string()));
    assert_eq!(include_dir(Some("a/b/macro.inc")), Some("a/b".to_string()));
    assert_eq!(include_dir(Some("macro.inc")), None);
    assert_eq!(include_dir(None), None);
}

#[test]
fn test_same_resolved_needs_both_and_equal() {
    let a = Some(b"/tmp/x.c".to_vec());
    assert!(same_resolved(a.clone(), Some(b"/tmp/x.c".to_vec())));
    assert!(!same_resolved(a.clone(), Some(b"/tmp/y.c".to_vec())));
    assert!(!same_resolved(a, None));
    assert!(!same_resolved(None, None));
}
