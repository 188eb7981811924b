use cargo_remark::remark::{parse_remarks, MessagePart, Remark, RemarkLoadOptions, RustcSourceRoot};

fn options(external: bool, filter: &[&str]) -> RemarkLoadOptions {
    RemarkLoadOptions {
        external,
        source_dir: "/tmp".to_string(),
        filter_kind: filter.iter().map(|s| s.to_string()).collect(),
        rustc_source_root: None,
    }
}

fn parse(input: &str) -> Vec<Remark> {
    parse_remarks(input, &options(true, &[]))
}

fn text(part: &MessagePart) -> &str {
    match part {
        MessagePart::String(s) => s,
        MessagePart::AnnotatedString { .. } => panic!("expected plain text"),
    }
}

fn annotated(part: &MessagePart) -> (&str, &str, u32, u32) {
    match part {
        MessagePart::AnnotatedString { message, location } => {
            (message, &location.file, location.line, location.column)
        }
        MessagePart::String(_) => panic!("expected an annotated part"),
    }
}

fn location(remark: &Remark) -> (&str, u32, u32) {
    let l = remark.function.location.as_ref().expect("location");
    (&l.file, l.line, l.column)
}

#[test]
fn parse_single() {
    let input = r#"--- !Missed
Pass:            sdagisel
Name:            FastISelFailure
Function:        __rust_alloc
DebugLoc:        { File: '/std/src/sys_common/backtrace.rs', 
                   Line: 131, Column: 0 }
Args:
  - String:          FastISel missed call
  - String:          ': '
  - String:          '  %3 = tail call ptr @__rdl_alloc(i64 %0, i64 %1)'
  - String:          ' (in function: __rust_alloc)'
..."#;
    let remarks = parse(input);
    assert_eq!(remarks.len(), 1);
    let r = &remarks[0];
    assert_eq!(r.pass, "sdagisel");
    assert_eq!(r.name, "FastISelFailure");
    assert_eq!(r.function.name, "__rust_alloc");
    assert_eq!(location(r), ("/std/src/sys_common/backtrace.rs", 131, 0));
    assert_eq!(r.message.len(), 1);
    assert_eq!(
        text(&r.message[0]),
        "FastISel missed call:   %3 = tail call ptr @__rdl_alloc(i64 %0, i64 %1) (in function: __rust_alloc)"
    );
}

#[test]
fn parse_multiple() {
    let input = r#"--- !Missed
Pass:            inline
Name:            NoDefinition
DebugLoc:        { File: '/foo/rust/rust/library/std/src/rt.rs', 
                   Line: 165, Column: 17 }
Function:        _ZN3std2rt10lang_start17h9096f6f84fb08eb2E
Args:
  - Callee:          _ZN3std2rt19lang_start_internal17had90330d479f72f8E
  - String:          ' will not be inlined into '
  - Caller:          _ZN3std2rt10lang_start17h9096f6f84fb08eb2E
    DebugLoc:        { File: '/foo/rust/rust/library/std/src/rt.rs', 
                       Line: 159, Column: 0 }
  - String:          ' because its definition is unavailable'
...
--- !Missed
Pass:            inline
Name:            NoDefinition
DebugLoc:        { File: 'src/main.rs', Line: 7, Column: 5 }
Function:        _ZN7remarks4main17hc92ae132ef1efa8eE
Args:
  - Callee:          _ZN3std2io5stdio6_print17hdb04fec352560b87E
  - String:          ' will not be inlined into '
  - Caller:          _ZN7remarks4main17hc92ae132ef1efa8eE
    DebugLoc:        { File: 'src/main.rs', Line: 6, Column: 0 }
  - String:          ' because its definition is unavailable'
..."#;
    let remarks = parse(input);
    assert_eq!(remarks.len(), 2);

    let r = &remarks[0];
    assert_eq!(r.pass, "inline");
    assert_eq!(r.name, "NoDefinition");
    assert_eq!(r.function.name, "std::rt::lang_start");
    assert_eq!(location(r), ("/foo/rust/rust/library/std/src/rt.rs", 165, 17));
    assert_eq!(r.message.len(), 3);
    assert_eq!(text(&r.message[0]), "std::rt::lang_start_internal will not be inlined into ");
    assert_eq!(
        annotated(&r.message[1]),
        ("std::rt::lang_start", "/foo/rust/rust/library/std/src/rt.rs", 159, 0)
    );
    assert_eq!(text(&r.message[2]), " because its definition is unavailable");

    let r = &remarks[1];
    assert_eq!(r.pass, "inline");
    assert_eq!(r.name, "NoDefinition");
    assert_eq!(r.function.name, "remarks::main");
    assert_eq!(location(r), ("src/main.rs", 7, 5));
    assert_eq!(r.message.len(), 3);
    assert_eq!(text(&r.message[0]), "std::io::stdio::_print will not be inlined into ");
    assert_eq!(annotated(&r.message[1]), ("remarks::main", "src/main.rs", 6, 0));
    assert_eq!(text(&r.message[2]), " because its definition is unavailable");
}

// A record without a location cannot be placed in a source file, so it is
// not kept.
#[test]
fn parse_no_location() {
    let input = r#"--- !Missed
Pass:            sdagisel
Name:            FastISelFailure
Function:        __rust_alloc
Args:
  - String:          FastISel missed call
  - String:          ': '
  - String:          '  %3 = tail call ptr @__rdl_alloc(i64 %0, i64 %1)'
  - String:          ' (in function: __rust_alloc)'
..."#;
    assert!(parse(input).is_empty());
}

#[test]
fn parse_ignored_type() {
    let input = r#"--- !Passed
Pass:            inline
Name:            Inlined
DebugLoc:        { File: '/projects/personal/rust/rust/library/std/src/sys_common/backtrace.rs', 
                   Line: 135, Column: 18 }
Function:        _ZN3std10sys_common9backtrace28__rust_begin_short_backtrace17h7208ef7aa68440d8E
Args:
  - String:          ''''
  - Callee:          _ZN4core3ops8function6FnOnce9call_once17hde3380935eb1addfE
  - String:          ''' inlined into '''
  - Caller:          _ZN3std10sys_common9backtrace28__rust_begin_short_backtrace17h7208ef7aa68440d8E
    DebugLoc:        { File: '/projects/personal/rust/rust/library/std/src/sys_common/backtrace.rs', 
                       Line: 131, Column: 0 }
  - String:          ''''
  - String:          ' with '
  - String:          '(cost='
  - Cost:            '-15030'
  - String:          ', threshold='
  - Threshold:       '487'
  - String:          ')'
  - String:          ' at callsite '
  - String:          _ZN3std10sys_common9backtrace28__rust_begin_short_backtrace17h7208ef7aa68440d8E
  - String:          ':'
  - Line:            '4'
  - String:          ':'
  - Column:          '18'
  - String:          ';'
...
--- !Analysis
Pass:            size-info
Name:            FunctionMISizeChange
Function:        __rust_alloc
Args:
  - Pass:            Fast Register Allocator
  - String:          ': Function: '
  - Function:        __rust_alloc
  - String:          ': '
  - String:          'MI Instruction count changed from '
  - MIInstrsBefore:  '7'
  - String:          ' to '
  - MIInstrsAfter:   '1'
  - String:          '; Delta: '
  - Delta:           '-6'
..."#;
    assert!(parse(input).is_empty());
}

const GVN: &str = r#"--- !Missed
Pass:            gvn
Name:            LoadClobbered
DebugLoc:        { File: '/projects/personal/rust/rust/library/core/src/result.rs', 
                   Line: 1948, Column: 15 }
Function:        '_ZN5alloc7raw_vec19RawVec$LT$T$C$A$GT$14grow_amortized17ha53db71e3f649c60E'
Args:
  - String:          'load of type '
  - Type:            i64
  - String:          ' not eliminated'
  - String:          ' because it is clobbered by '
  - ClobberedBy:     call
    DebugLoc:        { File: '/projects/personal/rust/rust/library/alloc/src/raw_vec.rs', 
                       Line: 404, Column: 19 }
..."#;

#[test]
fn parse_gvn() {
    assert_eq!(parse(GVN).len(), 1);
}

#[test]
fn gvn_message_keeps_bag_values() {
    let remarks = parse(GVN);
    let r = &remarks[0];
    assert_eq!(r.function.name, "alloc::raw_vec::RawVec<T,A>::grow_amortized");
    assert_eq!(r.message.len(), 2);
    assert_eq!(
        text(&r.message[0]),
        "load of type i64 not eliminated because it is clobbered by "
    );
    assert_eq!(
        annotated(&r.message[1]),
        ("call", "/projects/personal/rust/rust/library/alloc/src/raw_vec.rs", 404, 19)
    );
}

const NEVER_INLINE: &str = r#"--- !Missed
Pass:            inline
Name:            NeverInline
DebugLoc:        { File: 'src/main.rs', Line: 6, Column: 5 }
Function:        _ZN9myproject4main17h0123456789abcdefE
Args:
  - Callee:          _ZN9myproject6helper17hfedcba9876543210E
..."#;

#[test]
fn callee_without_location_is_plain_text() {
    let remarks = parse(NEVER_INLINE);
    assert_eq!(remarks.len(), 1);
    let r = &remarks[0];
    assert_eq!(r.pass, "inline");
    assert_eq!(r.name, "NeverInline");
    assert_eq!(r.function.name, "myproject::main");
    assert_eq!(location(r), ("src/main.rs", 6, 5));
    assert_eq!(r.message.len(), 1);
    assert_eq!(text(&r.message[0]), "myproject::helper");
}

#[test]
fn empty_text_has_no_records() {
    assert!(parse("").is_empty());
}

#[test]
fn unknown_tag_is_skipped_and_neighbours_are_kept() {
    let input = format!(
        "{}\n--- !Weird\nPass: x\nName: y\n...\n{}",
        NEVER_INLINE, NEVER_INLINE
    );
    let remarks = parse(&input);
    assert_eq!(remarks.len(), 2);
    assert_eq!(remarks[1].function.name, "myproject::main");
}

#[test]
fn malformed_document_is_skipped() {
    let input = format!(
        "--- !Missed\nPass: inline\nName: NoArgs\nDebugLoc: {{ File: 'a.rs', Line: 1, Column: 1 }}\nFunction: f\n...\n{}",
        NEVER_INLINE
    );
    let remarks = parse(&input);
    assert_eq!(remarks.len(), 1);
    assert_eq!(remarks[0].name, "NeverInline");
}

#[test]
fn filtered_kind_is_dropped() {
    let remarks = parse_remarks(NEVER_INLINE, &options(true, &["NeverInline"]));
    assert!(remarks.is_empty());
    let remarks = parse_remarks(NEVER_INLINE, &options(true, &["neverinline"]));
    assert_eq!(remarks.len(), 1);
}

#[test]
fn absolute_location_is_dropped_without_external() {
    let input = NEVER_INLINE.replace("'src/main.rs'", "'/elsewhere/main.rs'");
    assert!(parse_remarks(&input, &options(false, &[])).is_empty());
    assert_eq!(parse_remarks(&input, &options(true, &[])).len(), 1);
}

#[test]
fn missing_source_file_is_dropped_without_external() {
    let input = NEVER_INLINE.replace("'src/main.rs'", "'no/such/dir/file_that_is_not_there.rs'");
    assert!(parse_remarks(&input, &options(false, &[])).is_empty());
}

#[test]
fn toolchain_location_is_resolved() {
    let input = NEVER_INLINE.replace("'src/main.rs'", "'/rustc/0123abcd/library/core/src/lib.rs'");
    let mut opts = options(false, &[]);
    opts.rustc_source_root = Some(RustcSourceRoot("/sysroot/lib/rustlib/src/rust".to_string()));
    let remarks = parse_remarks(&input, &opts);
    assert_eq!(remarks.len(), 1);
    assert_eq!(
        location(&remarks[0]),
        ("/sysroot/lib/rustlib/src/rust/library/core/src/lib.rs", 6, 5)
    );
    assert!(remarks[0].external);
    assert!(!parse(NEVER_INLINE)[0].external);
}

#[test]
fn document_with_repeated_key_is_skipped_and_reading_goes_on() {
    let input = format!(
        "--- !Missed\nPass: a\nPass: b\nName: x\nDebugLoc: {{ File: 'a.rs', Line: 1, Column: 1 }}\nFunction: f\nArgs: []\n...\n{}",
        NEVER_INLINE
    );
    let remarks = parse(&input);
    assert_eq!(remarks.len(), 1);
    assert_eq!(remarks[0].name, "NeverInline");
}

#[test]
fn syntax_error_ends_reading() {
    let input = format!("{}\n--- !Missed\nPass: [unclosed\n...\n{}", NEVER_INLINE, NEVER_INLINE);
    let remarks = parse(&input);
    assert_eq!(remarks.len(), 1);
}

#[test]
fn bag_scalars_are_concatenated_in_order() {
    let input = r#"--- !Missed
Pass:            p
Name:            n
DebugLoc:        { File: 'a.rs', Line: 1, Column: 2 }
Function:        f
Args:
  - Cost:            7
    Flag:            true
    Text:            xy
  - Callee:          g
    DebugLoc:        { File: 'b.rs', Line: 3, Column: 4 }
..."#;
    let remarks = parse(input);
    assert_eq!(remarks.len(), 1);
    let r = &remarks[0];
    assert_eq!(r.message.len(), 2);
    assert_eq!(text(&r.message[0]), "7truexy");
    assert_eq!(annotated(&r.message[1]), ("g", "b.rs", 3, 4));
}
