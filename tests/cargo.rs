use cargo_remark::cargo::{check_remark_dir_support, extend_rustflags, parse_cargo_args, remark_flags};
use cargo_remark::remark::{has_remark_extension, join_path_of, RustcSourceRoot, DEFAULT_KIND_FILTER};

#[test]
fn release_argument_is_dropped() {
    let args = vec!["--release".to_string(), "-p".to_string(), "foo".to_string(), "--release".to_string()];
    assert_eq!(parse_cargo_args(args).filtered, vec!["-p".to_string(), "foo".to_string()]);
}

#[test]
fn remark_dir_option_is_found() {
    let help = "    -Z                     help -- Print unstable compiler options\n    -Z            remark-dir=val -- directory into which to write optimization remarks\n";
    assert!(check_remark_dir_support(help));
}

#[test]
fn remark_dir_option_is_missing() {
    let help = "    -Z            remark=val -- remarks\n    -Z remark-dir\n    remark-dir=val -Z\n";
    assert!(!check_remark_dir_support(help));
    assert!(!check_remark_dir_support(""));
}

#[test]
fn remark_dir_option_on_last_line_without_newline() {
    assert!(check_remark_dir_support("x\n\t-Z remark-dir=val"));
}

#[test]
fn flags_for_remarks() {
    assert_eq!(
        remark_flags("/t/remarks/yaml"),
        "-Cremark=all\u{1f}-Zremark-dir=/t/remarks/yaml\u{1f}-Cdebuginfo=1"
    );
}

#[test]
fn rustflags_are_extended() {
    assert_eq!(extend_rustflags(String::new(), "-Cx"), "-Cx");
    assert_eq!(extend_rustflags("-Ca".to_string(), "-Cx"), "-Ca\u{1f}-Cx");
}

#[test]
fn missing_sysroot_sources() {
    match RustcSourceRoot::from_sysroot("/no/such/sysroot".to_string()) {
        Ok(_) => panic!("expected an error"),
        Err(message) => {
            assert_eq!(message, "Path /no/such/sysroot/lib/rustlib/src/rust does not exist")
        }
    }
}

#[test]
fn remark_file_names() {
    assert!(has_remark_extension("main-abc.opt.yaml"));
    assert!(has_remark_extension(".opt.yaml"));
    assert!(!has_remark_extension("main.yaml"));
    assert!(!has_remark_extension("opt.yaml"));
}

#[test]
fn default_filter() {
    assert_eq!(DEFAULT_KIND_FILTER, ["FastISelFailure", "NeverInline", "SpillReloadCopies"]);
}

#[test]
fn joining_an_absolute_path_replaces_the_root() {
    assert_eq!(join_path_of("/root", "/abs/x.rs"), "/abs/x.rs");
    assert_eq!(join_path_of("/root", "x.rs"), "/root/x.rs");
    assert_eq!(join_path_of("", "x.rs"), "x.rs");
}
