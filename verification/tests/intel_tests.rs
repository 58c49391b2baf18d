use linkmap::intel::changes::{collect_change_summary, take_limited, ChangedFile};
use linkmap::intel::{
    changed_files, has_use_client_directive, is_internal_path, normalize_rel_path,
    parse_git_status_output, parse_path_query, route_path_for_file, semantic_kind,
    semantic_label,
};
use linkmap::extractor::{FileExtracts, RawCall, RawSymbol};
use linkmap::models::Symbol;

#[test]
fn test_parse_git_status_output_handles_rename_records_and_internal_paths() {
    let paths = parse_git_status_output(
        b"R  newname.ts\0oldname.ts\0?? .link/index.db\0?? .git/config\0?? src/app.ts\0",
    );
    assert_eq!(paths, vec!["newname.ts", "src/app.ts"]);
}

#[test]
fn test_parse_git_status_output_preserves_literal_arrow_in_filename() {
    let paths = parse_git_status_output(b"?? file -> name.ts\0");
    assert_eq!(paths, vec!["file -> name.ts"]);
}

#[test]
fn test_has_use_client_directive_is_precise() {
    assert!(has_use_client_directive(
        "'use client';\nexport default function A() {}"
    ));
    assert!(has_use_client_directive(
        "\"use client\" // comment\nexport default function A() {}"
    ));
    assert!(!has_use_client_directive(
        "'use clientish';\nexport default function A() {}"
    ));
    assert!(!has_use_client_directive(
        "const marker = 'use client';\nexport default function A() {}"
    ));
}

fn sym(id: i64, name: &str, kind: &str, file: &str, line: u32) -> Symbol {
    Symbol {
        id,
        name: name.to_string(),
        kind: kind.to_string(),
        file: file.to_string(),
        line,
        col: 0,
    }
}

#[test]
fn git_status_never_reports_index_files() {
    let paths = parse_git_status_output(b" M .link\0 M .git\0 M docs\\a.md\0");
    assert_eq!(paths, vec!["docs\\a.md"]);
    for p in &paths {
        assert!(!is_internal_path(&normalize_rel_path(p)));
    }
}

#[test]
fn changed_files_are_normalized_sorted_and_distinct() {
    let raw = vec![
        "src\\b.ts".to_string(),
        "src/a.ts".to_string(),
        "src/b.ts".to_string(),
    ];
    assert_eq!(changed_files(&raw), vec!["src/a.ts", "src/b.ts"]);
}

#[test]
fn route_paths_of_next_pages() {
    assert_eq!(route_path_for_file("app/page.tsx"), Some("/".to_string()));
    assert_eq!(
        route_path_for_file("app/(site)/blog/page.tsx"),
        Some("/blog".to_string())
    );
    assert_eq!(route_path_for_file("src/page.tsx"), None);
}

#[test]
fn semantic_kinds_and_labels() {
    let page = sym(1, "Page", "function", "app/blog/page.tsx", 3);
    assert_eq!(semantic_kind(&page), "route");
    assert_eq!(semantic_label(&page), "/blog (page.tsx:3)");
    let f = sym(2, "add", "function", "src/math.py", 7);
    assert_eq!(semantic_kind(&f), "function");
    assert_eq!(semantic_label(&f), "add (math.py:7)");
    let c = sym(3, "Button", "function", "components/Button.tsx", 1);
    assert_eq!(semantic_kind(&c), "component");
}

#[test]
fn path_queries_need_both_sides() {
    assert_eq!(
        parse_path_query(" page.tsx -> HeroSection "),
        Some(("page.tsx".to_string(), "HeroSection".to_string()))
    );
    assert_eq!(parse_path_query("A ->  "), None);
    assert_eq!(parse_path_query("no arrow"), None);
}

#[test]
fn take_limited_sorts_dedups_and_caps() {
    let mut items = Vec::new();
    for i in (0..20).rev() {
        items.push(format!("item{:02}", i));
        items.push(format!("item{:02}", i));
    }
    let r = take_limited(items);
    assert_eq!(r.len(), 12);
    assert_eq!(r[0], "item00");
    assert_eq!(r[11], "item11");
}

fn extracts(symbols: Vec<RawSymbol>, calls: Vec<RawCall>) -> FileExtracts {
    FileExtracts {
        symbols,
        calls,
        renders: Vec::new(),
        imports: Vec::new(),
        routes: Vec::new(),
    }
}

fn raw_symbol(name: &str, line: u32) -> RawSymbol {
    RawSymbol {
        name: name.to_string(),
        kind: "function".to_string(),
        line,
        col: 0,
        byte_start: 0,
        byte_end: 0,
    }
}

#[test]
fn change_summary_reports_added_and_removed_signatures() {
    let files = vec![
        ChangedFile {
            path: "app.py".to_string(),
            current: extracts(
                vec![raw_symbol("add", 1), raw_symbol("subtract", 4)],
                vec![RawCall { callee_name: "add".to_string(), line: 5, col: 11 }],
            ),
            head: extracts(vec![raw_symbol("add", 1)], Vec::new()),
        },
        ChangedFile {
            path: "README.md".to_string(),
            current: extracts(vec![raw_symbol("ignored", 1)], Vec::new()),
            head: extracts(Vec::new(), Vec::new()),
        },
    ];
    let summary = collect_change_summary(&files);
    assert_eq!(summary.changed_files, vec!["README.md", "app.py"]);
    assert_eq!(summary.added_symbols, vec!["+ subtract:function:4:0 (app.py)"]);
    assert!(summary.removed_symbols.is_empty());
    assert_eq!(summary.added_edges, vec!["+ calls:add:5 (app.py)"]);
    assert!(summary.removed_edges.is_empty());
}

#[test]
fn git_status_decodes_invalid_utf8_lossily() {
    let paths = parse_git_status_output(b"?? caf\xe9.ts\0 M ok.rs\0");
    assert_eq!(paths, vec!["caf\u{FFFD}.ts", "ok.rs"]);
}
