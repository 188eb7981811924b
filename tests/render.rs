use cargo_remark::index::RemarkIndex;
use cargo_remark::remark::{parse_remarks, Function, Location, MessagePart, Remark, RemarkLoadOptions};
use cargo_remark::render::{
    build_report, format_message, path_to_relative_url, render_remark_link, resolve_path, Report,
};

fn loc(file: &str, line: u32, column: u32) -> Location {
    Location { file: file.to_string(), line, column }
}

fn remark(name: &str, file: &str, line: u32, message: Vec<MessagePart>) -> Remark {
    Remark {
        pass: "inline".to_string(),
        name: name.to_string(),
        function: Function { name: "f".to_string(), location: Some(loc(file, line, 1)) },
        message,
        external: false,
    }
}

fn plain(s: &str) -> MessagePart {
    MessagePart::String(s.to_string())
}

fn report_of(remarks: Vec<Remark>) -> Report {
    let index = RemarkIndex::new(remarks);
    build_report(&index, "/project")
}

#[test]
fn url_replaces_separators() {
    let mut buffer = String::from("x");
    path_to_relative_url(&mut buffer, Some("src"), "a\\b/c.rs");
    assert_eq!(buffer, "xsrc/a_b_c.rs.html");
    let mut buffer = String::new();
    path_to_relative_url(&mut buffer, None, "src/main.rs");
    assert_eq!(buffer, "src_main.rs.html");
}

#[test]
fn link_with_default_label() {
    let mut buffer = String::new();
    render_remark_link(&mut buffer, &loc("src/main.rs", 6, 5), Some("src"), None);
    assert_eq!(buffer, "<a href='src/src_main.rs.html#L6'>src&#x2F;main.rs:6:5</a>");
}

#[test]
fn link_with_label_is_escaped() {
    let mut buffer = String::new();
    render_remark_link(&mut buffer, &loc("lib.rs", 12, 0), None, Some("Vec<T>"));
    assert_eq!(buffer, "<a href='lib.rs.html#L12'>Vec&lt;T&gt;</a>");
}

#[test]
fn message_is_escaped_and_linked() {
    let parts = vec![
        plain("a < b & \"c\" 'd' "),
        MessagePart::AnnotatedString { message: "g".to_string(), location: loc("x.rs", 3, 1) },
        plain(">"),
    ];
    assert_eq!(
        format_message(&parts, Some("src")),
        "a &lt; b &amp; &quot;c&quot; &#x27;d&#x27; <a href='src/x.rs.html#L3'>g</a>&gt;"
    );
}

#[test]
fn relative_path_is_resolved_under_root() {
    assert_eq!(resolve_path("/project", "src/main.rs"), "/project/src/main.rs");
    assert_eq!(resolve_path("/project/", "src/main.rs"), "/project/src/main.rs");
    assert_eq!(resolve_path("/project", "/abs/x.rs"), "/abs/x.rs");
}

#[test]
fn index_groups_by_file_and_keeps_referenced_files() {
    let remarks = vec![
        remark("A", "src/a.rs", 1, vec![plain("x")]),
        remark(
            "B",
            "src/b.rs",
            2,
            vec![MessagePart::AnnotatedString { message: "h".to_string(), location: loc("src/c.rs", 9, 1) }],
        ),
        remark("C", "src/a.rs", 3, vec![]),
    ];
    let index = RemarkIndex::new(remarks);
    let files: Vec<(String, Vec<usize>)> = index.files().clone();
    assert_eq!(
        files,
        vec![
            ("src/a.rs".to_string(), vec![0, 2]),
            ("src/b.rs".to_string(), vec![1]),
            ("src/c.rs".to_string(), vec![]),
        ]
    );
    assert_eq!(index.remarks().len(), 3);
}

#[test]
fn pages_only_for_files_with_records() {
    let remarks = vec![remark(
        "B",
        "src/b.rs",
        2,
        vec![MessagePart::AnnotatedString { message: "h".to_string(), location: loc("src/c.rs", 9, 1) }],
    )];
    let report = report_of(remarks);
    assert_eq!(report.pages.len(), 1);
    assert_eq!(report.pages[0].path, "src/b.rs");
    assert_eq!(report.pages[0].output, "src/src_b.rs.html");
    assert_eq!(report.pages[0].source, "/project/src/b.rs");
    assert_eq!(report.source_links.len(), 1);
}

#[test]
fn identical_records_collapse_on_a_page() {
    let remarks = vec![
        remark("A", "src/a.rs", 5, vec![plain("same")]),
        remark("A", "src/a.rs", 5, vec![plain("same")]),
        remark("A", "src/a.rs", 5, vec![plain("other")]),
    ];
    let report = report_of(remarks);
    assert_eq!(report.remarks.len(), 3);
    assert_eq!(report.pages.len(), 1);
    let entries = &report.pages[0].remarks;
    assert_eq!(entries.len(), 2);
    assert_eq!(entries[0].message, "other");
    assert_eq!(entries[1].message, "same");
}

#[test]
fn page_entries_are_ordered_by_line() {
    let remarks = vec![
        remark("A", "src/a.rs", 9, vec![]),
        remark("B", "src/a.rs", 2, vec![]),
        remark("C", "src/a.rs", 9, vec![]),
        remark("D", "src/a.rs", 4, vec![]),
    ];
    let report = report_of(remarks);
    let names: Vec<&str> = report.pages[0].remarks.iter().map(|e| e.name.as_str()).collect();
    assert_eq!(names, vec!["B", "D", "A", "C"]);
    let lines: Vec<u32> = report.pages[0].remarks.iter().map(|e| e.line).collect();
    assert_eq!(lines, vec![2, 4, 9, 9]);
}

#[test]
fn links_put_project_files_first_then_by_count() {
    let remarks = vec![
        remark("A", "/abs/x.rs", 1, vec![]),
        remark("A", "/abs/x.rs", 2, vec![]),
        remark("A", "/abs/x.rs", 3, vec![]),
        remark("B", "src/one.rs", 1, vec![]),
        remark("C", "src/two.rs", 1, vec![]),
        remark("C", "src/two.rs", 2, vec![]),
        remark("D", "src/three.rs", 1, vec![]),
    ];
    let report = report_of(remarks);
    let links: Vec<(&str, u64)> =
        report.source_links.iter().map(|l| (l.name.as_str(), l.remark_count)).collect();
    assert_eq!(
        links,
        vec![("src/two.rs", 2), ("src/one.rs", 1), ("src/three.rs", 1), ("/abs/x.rs", 3)]
    );
    assert_eq!(report.source_links[0].file, "src/src_two.rs.html");
}

#[test]
fn summary_rows() {
    let mut r = remark("A<", "src/a.rs", 7, vec![plain("m")]);
    r.function.name = "x::<y>".to_string();
    let report = report_of(vec![r]);
    let row = &report.remarks[0];
    assert_eq!(row.name, "A<");
    assert_eq!(row.location.as_deref(), Some("<a href='src/src_a.rs.html#L7'>src&#x2F;a.rs:7:1</a>"));
    assert_eq!(row.function, "x::&lt;y&gt;");
    assert_eq!(row.message, "m");
}

#[test]
fn same_input_same_report() {
    let make = || {
        vec![
            remark("A", "src/a.rs", 3, vec![plain("p")]),
            remark("B", "src/b.rs", 1, vec![plain("q")]),
            remark("A", "src/a.rs", 1, vec![plain("r")]),
        ]
    };
    let one = report_of(make());
    let two = report_of(make());
    let rows = |r: &Report| r.remarks.iter().map(|e| (e.name.clone(), e.message.clone())).collect::<Vec<_>>();
    let pages = |r: &Report| {
        r.pages
            .iter()
            .map(|p| (p.output.clone(), p.remarks.iter().map(|e| (e.line, e.message.clone())).collect::<Vec<_>>()))
            .collect::<Vec<_>>()
    };
    let links = |r: &Report| r.source_links.iter().map(|l| l.file.clone()).collect::<Vec<_>>();
    assert_eq!(rows(&one), rows(&two));
    assert_eq!(pages(&one), pages(&two));
    assert_eq!(links(&one), links(&two));
}

#[test]
fn never_inline_scenario() {
    let input = r#"--- !Missed
Pass:            inline
Name:            NeverInline
DebugLoc:        { File: 'src/main.rs', Line: 6, Column: 5 }
Function:        _ZN9myproject4main17h0123456789abcdefE
Args:
  - Callee:          _ZN9myproject6helper17hfedcba9876543210E
..."#;
    let options = RemarkLoadOptions {
        external: true,
        source_dir: "/project".to_string(),
        filter_kind: vec![],
        rustc_source_root: None,
    };
    let remarks = parse_remarks(input, &options);
    assert_eq!(remarks.len(), 1);
    let index = RemarkIndex::new(remarks);
    assert_eq!(index.files().len(), 1);
    assert_eq!(index.files()[0].0, "src/main.rs");
    let report = build_report(&index, "/project");
    assert_eq!(report.pages.len(), 1);
    assert!(report.pages[0].output.ends_with("src_main.rs.html"));
    assert_eq!(report.pages[0].remarks.len(), 1);
    assert_eq!(report.pages[0].remarks[0].line, 6);
    assert_eq!(report.pages[0].remarks[0].function, "myproject::main");
    assert_eq!(report.pages[0].remarks[0].message, "myproject::helper");
}

fn page_names(report: &Report) -> Vec<(u32, String, String)> {
    report.pages[0].remarks.iter().map(|e| (e.line, e.name.clone(), e.message.clone())).collect()
}

#[test]
fn page_does_not_depend_on_record_order() {
    let one = report_of(vec![
        remark("Z", "src/a.rs", 4, vec![plain("m")]),
        remark("A", "src/a.rs", 4, vec![plain("n")]),
        remark("A", "src/a.rs", 4, vec![plain("m")]),
    ]);
    let two = report_of(vec![
        remark("A", "src/a.rs", 4, vec![plain("m")]),
        remark("Z", "src/a.rs", 4, vec![plain("m")]),
        remark("A", "src/a.rs", 4, vec![plain("n")]),
    ]);
    assert_eq!(page_names(&one), page_names(&two));
    assert_eq!(
        page_names(&one),
        vec![
            (4, "A".to_string(), "m".to_string()),
            (4, "A".to_string(), "n".to_string()),
            (4, "Z".to_string(), "m".to_string()),
        ]
    );
}

#[test]
fn link_counts_entries_shown() {
    let report = report_of(vec![
        remark("A", "src/a.rs", 1, vec![plain("x")]),
        remark("A", "src/a.rs", 1, vec![plain("x")]),
        remark("B", "src/b.rs", 1, vec![plain("x")]),
        remark("C", "src/b.rs", 2, vec![plain("x")]),
    ]);
    let links: Vec<(&str, u64)> =
        report.source_links.iter().map(|l| (l.name.as_str(), l.remark_count)).collect();
    assert_eq!(links, vec![("src/b.rs", 2), ("src/a.rs", 1)]);
}
