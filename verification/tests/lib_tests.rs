use metrowrap::workspace::TempMode;
use metrowrap::{
    dependency_file_path, dependency_source, escape_symbol, unescape_symbol, Args, ArgsError,
    SourceType,
};

#[test]
fn test_escape_symbol() {
    assert_eq!(escape_symbol("foo.bar$baz"), "foo__at__bar__dollar__baz");
}

#[test]
fn test_unescape_symbol() {
    assert_eq!(unescape_symbol("foo__at__bar__dollar__baz"), "foo.bar$baz");
}

#[test]
fn test_roundtrip_symbol() {
    assert_eq!(unescape_symbol(&escape_symbol("foo.bar$baz")), "foo.bar$baz");
}

#[test]
fn test_roundtrip_symbol_dots_and_dollars() {
    for name in ["a.b.c", "$$", ".L_jtbl$1", "plain", ""] {
        assert_eq!(unescape_symbol(&escape_symbol(name)), name);
    }
}

#[test]
fn test_roundtrip_fails_on_literal_escape() {
    // A name that already holds an escape sequence does not come back unchanged.
    assert_eq!(unescape_symbol(&escape_symbol("a__at__b")), "a.b");
}

#[test]
fn test_source_names() {
    assert_eq!(SourceType::StdIn.name(), "<stdin>");
    assert_eq!(SourceType::Path("src/a.c".to_string()).name(), "src/a.c");
}

fn args(rest: &[&str], target_encoding: Option<&str>) -> Args {
    Args {
        output: "out.o".to_string(),
        mwcc_path: "mwccpsp.exe".to_string(),
        as_path: "mipsel-linux-gnu-as".to_string(),
        as_march: "allegrex".to_string(),
        as_mabi: "32".to_string(),
        use_wibo: false,
        wibo_path: "wibo".to_string(),
        asm_dir: None,
        macro_inc_path: None,
        src_dir: None,
        target_encoding: target_encoding.map(|s| s.to_string()),
        skip_asm: false,
        debug_keep_temp_files_on_failure: None,
        rest: rest.iter().map(|s| s.to_string()).collect(),
    }
}

#[test]
fn test_input_file_choices() {
    assert_eq!(args(&["-O2", "file.c"], None).input_file(true), Ok("file.c".to_string()));
    assert_eq!(args(&["-"], None).input_file(false), Ok("-".to_string()));
    assert_eq!(args(&[], None).input_file(false), Err(ArgsError::MissingInput));
    assert_eq!(
        args(&["does_not_exist.c"], None).input_file(false),
        Err(ArgsError::InputNotFound("does_not_exist.c".to_string()))
    );
    assert_eq!(
        args(&["file.c"], Some("Shift-JIS")).input_file(true),
        Err(ArgsError::TargetEncoding("Shift-JIS".to_string()))
    );
}

#[test]
fn test_temp_modes() {
    assert_eq!(TempMode::from_option(None), TempMode::Normal);
    assert_eq!(TempMode::from_option(Some("shm")), TempMode::ShmDebug);
    assert_eq!(TempMode::from_option(Some("tmp")), TempMode::KeepOnFailure);
    assert!(TempMode::Normal.prefers_shm());
    assert!(TempMode::ShmDebug.prefers_shm());
    assert!(!TempMode::KeepOnFailure.prefers_shm());
    assert!(TempMode::KeepOnFailure.keeps_on_failure());
    assert!(!TempMode::ShmDebug.keeps_on_failure());
    let mut a = args(&["x.c"], None);
    a.debug_keep_temp_files_on_failure = Some("shm".to_string());
    assert_eq!(a.temp_mode(), TempMode::ShmDebug);
}

#[test]
fn test_dependency_file_beside_object_in_gcc_mode() {
    assert_eq!(
        dependency_file_path("build/src/main.o", "src/main.c", true),
        "build/src/main.o.d"
    );
}

#[test]
fn test_dependency_file_beside_source_in_mw_mode() {
    assert_eq!(
        dependency_file_path("build/src/main.o", "src/main.c", false),
        "src/main.d"
    );
    assert_eq!(dependency_file_path("out.o", "<stdin>", false), "<stdin>.d");
}

#[test]
fn test_dependency_source_only_for_interactive_files() {
    let file = SourceType::Path("src/main.c".to_string());
    assert_eq!(dependency_source(&file, true), Some("src/main.c".to_string()));
    assert_eq!(dependency_source(&file, false), None);
    assert_eq!(dependency_source(&SourceType::StdIn, true), None);
}

#[test]
fn test_escape_roundtrip_edges() {
    for name in ["at.", ".at.", "$$", "$dollar$", "data$at", "a.b$c"] {
        assert_eq!(unescape_symbol(&escape_symbol(name)), name);
    }
    assert_eq!(escape_symbol("$at."), "__dollar__at__at__");
    assert_eq!(unescape_symbol(&escape_symbol("$at.")), "__dollar.at__");
}

fn last_names_file(a: &Args) -> bool {
    a.rest.last().map(|f| std::path::Path::new(f).is_file()).unwrap_or(false)
}

#[test]
fn test_rejects_target_encoding() {
    let a = args(&["file.c"], Some("Shift-JIS"));
    let result = a.input_file(last_names_file(&a));
    assert_eq!(result, Err(ArgsError::TargetEncoding("Shift-JIS".to_string())));
}

#[test]
fn test_missing_input_file() {
    let a = args(&[], None);
    let result = a.input_file(last_names_file(&a));
    assert_eq!(result, Err(ArgsError::MissingInput));
}

#[test]
fn test_nonexistent_input_file() {
    let a = args(&["does_not_exist.c"], None);
    let result = a.input_file(last_names_file(&a));
    assert_eq!(result, Err(ArgsError::InputNotFound("does_not_exist.c".to_string())));
}
