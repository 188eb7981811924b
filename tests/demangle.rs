use cargo_remark::demangle::{demangle, strip_hash_suffix_of};

#[test]
fn hash_suffix_is_stripped() {
    assert_eq!(strip_hash_suffix_of("foo::bar::h0123456789abcdef".to_string()), "foo::bar");
}

#[test]
fn name_without_hash_is_untouched() {
    assert_eq!(strip_hash_suffix_of("foo::bar".to_string()), "foo::bar");
    assert_eq!(strip_hash_suffix_of("foo::h0123456789abcde".to_string()), "foo::h0123456789abcde");
    assert_eq!(strip_hash_suffix_of("foo::H0123456789ABCDEF".to_string()), "foo::H0123456789ABCDEF");
    assert_eq!(strip_hash_suffix_of("h0123456789abcdef".to_string()), "h0123456789abcdef");
}

#[test]
fn legacy_symbol_is_demangled_without_hash() {
    assert_eq!(demangle("_ZN3std2rt10lang_start17h9096f6f84fb08eb2E"), "std::rt::lang_start");
}

#[test]
fn plain_name_is_kept() {
    assert_eq!(demangle("__rust_alloc"), "__rust_alloc");
}
