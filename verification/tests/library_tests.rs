use linkmap::error::{exit_code, format_error, user_error, AppError};
use linkmap::explain::{explain_path, explain_symbol};
use linkmap::extractor::{dedupe_symbols, extract_from_captures, Capture, RawRoute, RawSymbol};
use linkmap::hasher::hash_bytes;
use linkmap::history::{
    detect_session, display_session_key, format_age, format_invocation, has_exact_session,
    record_command, scope_label, SessionInfo,
};
use linkmap::indexing::{
    check_index_format, classify_file, deleted_paths, escape_like_pattern, index_rows,
    scan_decision, scans_laravel_routes, with_laravel_routes, FileChange, ScanDecision,
};
use linkmap::intel::pathfind::{find_path, PathResult, PathStep};
use linkmap::laravel::extract_routes_from_routes_php;
use linkmap::lang::{detect_lang, max_file_size, should_skip_dir, Lang};
use linkmap::parsing::{ExtractError, ExtractorPool};
use linkmap::models::{Edge, Symbol};
use linkmap::report::{capped_list, edge_end_label, format_duration, list_row, pad_left_str, pad_right_str};
use linkmap::resolver::{resolve, ResolveInput};
use linkmap::snapshot::{diff_snapshots, Snapshot, SnapshotSymbol};
use linkmap::ui::disclaimer;
use linkmap::viewer::dot::escape_dot;
use linkmap::viewer::graph::GraphNode;
use linkmap::viewer::html::{edge_color, escape_html, kind_color, node_style, safe_repo_file_path};
use linkmap::viewer::{build_graph, generate_html, graph_to_dot, GraphData, GraphEdge, PageAssets};

fn sym(id: i64, name: &str, kind: &str, file: &str, line: u32) -> Symbol {
    Symbol {
        id,
        name: name.to_string(),
        kind: kind.to_string(),
        file: file.to_string(),
        line,
        col: 0,
    }
}

fn edge(from: i64, to: i64, relation: &str, origin: &str, line: u32) -> Edge {
    Edge {
        from_id: from,
        to_id: to,
        relation: relation.to_string(),
        reason: "unique global definition match".to_string(),
        origin_file: origin.to_string(),
        origin_line: line,
        confidence: 70,
    }
}

// --- languages and scanning -------------------------------------------------

#[test]
fn languages_by_extension() {
    assert_eq!(detect_lang("src/app.ts"), Some(Lang::TypeScript));
    assert_eq!(detect_lang("web/App.tsx"), Some(Lang::Tsx));
    assert_eq!(detect_lang("lib/x.mjs"), Some(Lang::JavaScript));
    assert_eq!(detect_lang("main.rs"), Some(Lang::Rust));
    assert_eq!(detect_lang(".bashrc"), None);
    assert_eq!(detect_lang("notes.txt"), None);
    assert_eq!(Lang::Php.name(), "php");
    assert_eq!(Lang::from_extension("pyi"), Some(Lang::Python));
}

#[test]
fn scanning_skips_vendor_dirs_and_large_files() {
    assert!(should_skip_dir("node_modules"));
    assert!(should_skip_dir(".link"));
    assert!(!should_skip_dir("src"));
    assert_eq!(max_file_size(), 1_048_576);
    assert_eq!(scan_decision("huge.js", 1_048_577), ScanDecision::TooLarge);
    assert_eq!(scan_decision("ok.js", 1_048_576), ScanDecision::Accept(Lang::JavaScript));
    assert_eq!(scan_decision("readme.md", 10), ScanDecision::Unsupported);
    assert!(scans_laravel_routes(Lang::Php, "routes/web.php"));
    assert!(!scans_laravel_routes(Lang::Php, "app/web.php"));
    assert!(!scans_laravel_routes(Lang::JavaScript, "routes/web.js"));
}

// --- errors -----------------------------------------------------------------

#[test]
fn user_errors_exit_with_one_and_show_their_message() {
    let e = user_error("not a Link project. Run 'linkmap init' first.".to_string());
    assert_eq!(exit_code(&e), 1);
    assert_eq!(format_error(&e), "not a Link project. Run 'linkmap init' first.");
}

#[test]
fn other_errors_show_their_chain_without_repeats() {
    let e = AppError::Other(vec![
        "failed to open".to_string(),
        "".to_string(),
        "failed to open".to_string(),
        "permission denied".to_string(),
    ]);
    assert_eq!(exit_code(&e), 2);
    assert_eq!(format_error(&e), "failed to open: permission denied");
    assert_eq!(format_error(&AppError::Other(Vec::new())), "internal error");
}

// --- hashing ----------------------------------------------------------------

#[test]
fn hashes_are_sha256_in_lowercase_hex() {
    assert_eq!(
        hash_bytes(b"abc"),
        "ba7816bf8f01cfea414140de5dae2223b00361a396177a9cb410ff61f20015ad"
    );
    assert_eq!(
        hash_bytes(b""),
        "e3b0c44298fc1c149afbf4c8996fb92427ae41e4649b934ca495991b7852b855"
    );
}

// --- history ----------------------------------------------------------------

#[test]
fn session_comes_from_the_first_set_variable() {
    let values = vec![None, Some("  ".to_string()), Some(" abc ".to_string()), Some("x".to_string())];
    let s = detect_session(&values);
    assert_eq!(s.key, Some("TERM_SESSION_ID:abc".to_string()));
    assert_eq!(s.source, Some("TERM_SESSION_ID"));
    assert!(has_exact_session(&s));
    let none = detect_session(&vec![None, None]);
    assert_eq!(none.key, None);
    assert!(!has_exact_session(&none));
}

#[test]
fn invocations_quote_arguments_that_need_it() {
    let args = vec!["init".to_string(), "--quiet".to_string()];
    assert_eq!(format_invocation(&args), "linkmap init --quiet");
    let args = vec!["explain".to_string(), "A -> B".to_string(), "".to_string(), "say\"hi\\".to_string()];
    assert_eq!(format_invocation(&args), "linkmap explain \"A -> B\" \"\" \"say\\\"hi\\\\\"");
    assert_eq!(format_invocation(&Vec::new()), "linkmap");
}

#[test]
fn scope_labels() {
    let s = SessionInfo { key: Some("LINK_SESSION_ID:a".to_string()), source: Some("LINK_SESSION_ID") };
    assert_eq!(scope_label(false, &s), "current session (LINK_SESSION_ID)");
    assert_eq!(scope_label(true, &s), "all recorded commands for this project");
    let none = SessionInfo { key: None, source: None };
    assert_eq!(
        scope_label(false, &none),
        "all recorded commands for this project (no shell session id detected)"
    );
}

#[test]
fn ages_in_the_largest_unit() {
    assert_eq!(format_age(100, 159), "59s ago");
    assert_eq!(format_age(100, 160), "1m ago");
    assert_eq!(format_age(0, 7200), "2h ago");
    assert_eq!(format_age(0, 3 * 86_400), "3d ago");
    assert_eq!(format_age(500, 100), "0s ago");
}

#[test]
fn long_session_values_are_cut() {
    assert_eq!(display_session_key("global"), "global");
    assert_eq!(display_session_key("LINK_SESSION_ID:session-a"), "LINK_SESSION_ID:session-a");
    assert_eq!(
        display_session_key("WT_SESSION:0123456789abcdefXYZ"),
        "WT_SESSION:0123456789abcdef..."
    );
    assert_eq!(display_session_key("nocolon"), "nocolon");
}

#[test]
fn history_rows_only_with_an_index() {
    let s = SessionInfo { key: None, source: None };
    assert!(record_command(false, &s, 1, "/repo", "linkmap list", true).is_none());
    let r = record_command(true, &s, 5, "/repo", "linkmap list", false).unwrap();
    assert_eq!(r.session_key, "global");
    assert_eq!(r.ts, 5);
    assert_eq!(r.cwd, "/repo");
    assert_eq!(r.command, "linkmap list");
    assert!(!r.success);
}

#[test]
fn quiet_commands_show_no_notice() {
    assert!(disclaimer(true).is_empty());
    let lines = disclaimer(false);
    assert_eq!(lines.len(), 2);
    assert!(lines[0].starts_with("warning: linkmap is an experimental hobby project"));
}

// --- extraction -------------------------------------------------------------

#[test]
fn laravel_routes_from_route_files() {
    let routes = extract_routes_from_routes_php(
        "<?php\nRoute::get('/hello', 'HelloController@index');\n  Route::post(\"/a\\\"b\", \"C@d\"); Route::x\n",
    );
    assert_eq!(routes.len(), 2);
    assert_eq!(routes[0].method, "GET");
    assert_eq!(routes[0].path, "/hello");
    assert_eq!(routes[0].handler_name, "HelloController@index");
    assert_eq!(routes[0].line, 2);
    assert_eq!(routes[0].col, 0);
    assert_eq!(routes[1].method, "POST");
    assert_eq!(routes[1].path, "/a\"b");
    assert_eq!(routes[1].handler_name, "C@d");
    assert_eq!(routes[1].line, 3);
    assert_eq!(routes[1].col, 2);
}

fn capture(name: &str, text: &str, row: u32, column: u32) -> Capture {
    Capture {
        name: name.to_string(),
        text: text.to_string(),
        row,
        column,
        start_byte: 0,
        end_byte: 0,
    }
}

#[test]
fn captures_become_extracts() {
    let caps = vec![
        capture("definition.function", "hello", 0, 9),
        capture("definition.variable", "hello", 0, 9),
        capture("call", "hello", 4, 2),
        capture("call", "", 4, 9),
        capture("import.name", "Button", 1, 9),
        capture("import.source", "'./Button'", 1, 21),
        capture("route.method", "get", 2, 4),
        capture("route.path", "'/hello'", 2, 8),
        capture("route.handler", "hello", 2, 18),
        capture("route.method", "post", 3, 4),
    ];
    let ex = extract_from_captures(&caps);
    assert_eq!(ex.symbols.len(), 1);
    assert_eq!(ex.symbols[0].kind, "function");
    assert_eq!(ex.symbols[0].line, 1);
    assert_eq!(ex.calls.len(), 1);
    assert_eq!(ex.calls[0].line, 5);
    assert_eq!(ex.imports.len(), 1);
    assert_eq!(ex.imports[0].source_module, "./Button");
    assert_eq!(ex.routes.len(), 1);
    assert_eq!(ex.routes[0].method, "GET");
    assert_eq!(ex.routes[0].path, "/hello");
    assert_eq!(ex.routes[0].handler_name, "hello");
}

#[test]
fn variables_at_a_function_site_are_dropped() {
    let f = RawSymbol { name: "a".to_string(), kind: "function".to_string(), line: 1, col: 0, byte_start: 0, byte_end: 9 };
    let v = RawSymbol { kind: "variable".to_string(), ..f.clone() };
    let w = RawSymbol { byte_end: 8, ..v.clone() };
    let r = dedupe_symbols(vec![f.clone(), v, w.clone()]);
    assert_eq!(r, vec![f, w]);
}

// --- index rows and updates -------------------------------------------------

#[test]
fn rows_for_a_file() {
    let caps = vec![
        capture("definition.function", "hello", 0, 0),
        capture("call", "log", 1, 2),
        capture("render", "Button", 2, 3),
        capture("import.name", "Button", 3, 9),
        capture("import.source", "\"./b\"", 3, 20),
        capture("route.method", "get", 4, 0),
        capture("route.path", "'/x'", 4, 4),
        capture("route.handler", "hello", 4, 10),
    ];
    let ex = extract_from_captures(&caps);
    let rows = index_rows("src/a.js", &ex);
    let kinds: Vec<&str> = rows.symbols.iter().map(|s| s.kind.as_str()).collect();
    assert_eq!(kinds, vec!["function", "call", "render", "import"]);
    assert!(rows.symbols.iter().all(|s| s.file == "src/a.js"));
    assert_eq!(rows.imports.len(), 1);
    assert_eq!(rows.imports[0].source_module, "./b");
    assert_eq!(rows.routes.len(), 1);
    assert_eq!(rows.routes[0].symbol.name, "GET /x");
    assert_eq!(rows.routes[0].symbol.kind, "route");
    assert_eq!(rows.routes[0].handler_name, "hello");
}

#[test]
fn update_classification() {
    assert_eq!(classify_file("h1", &None), FileChange::New);
    assert_eq!(classify_file("h1", &Some("h0".to_string())), FileChange::Changed);
    assert_eq!(classify_file("h1", &Some("h1".to_string())), FileChange::Unchanged);
    let stored = vec!["a.py".to_string(), "b.py".to_string(), "c.py".to_string()];
    let current = vec!["c.py".to_string(), "a.py".to_string()];
    assert_eq!(deleted_paths(&stored, &current), vec!["b.py"]);
}

#[test]
fn like_patterns_escape_wildcards() {
    assert_eq!(escape_like_pattern("a%b_c\\"), "a\\%b\\_c\\\\");
    assert_eq!(escape_like_pattern("O'Reilly OR 1=1"), "O'Reilly OR 1=1");
}

#[test]
fn index_format_must_match() {
    assert!(check_index_format(&Some("5".to_string())).is_none());
    let e = check_index_format(&None).unwrap();
    assert_eq!(exit_code(&e), 1);
    assert!(format_error(&e).contains("Run 'linkmap init'"));
    let e = check_index_format(&Some("4".to_string())).unwrap();
    assert_eq!(
        format_error(&e),
        "index format 4 is not supported by this build. Run 'linkmap init' to rebuild the index."
    );
}

// --- resolution -------------------------------------------------------------

#[test]
fn unique_definition_is_linked_and_ambiguous_is_skipped() {
    let input = ResolveInput {
        definitions: vec![
            sym(1, "add", "function", "app.py", 1),
            sym(3, "dup", "function", "a.py", 1),
            sym(4, "dup", "function", "b.py", 1),
        ],
        calls: vec![sym(2, "add", "call", "main.py", 3), sym(5, "dup", "call", "main.py", 4)],
        renders: Vec::new(),
        imports: Vec::new(),
        routes: Vec::new(),
        route_refs: Vec::new(),
        import_refs: Vec::new(),
    };
    let res = resolve(&input);
    assert_eq!(res.edges.len(), 1);
    assert_eq!(res.edges[0].from_id, 2);
    assert_eq!(res.edges[0].to_id, 1);
    assert_eq!(res.edges[0].relation, "calls");
    assert_eq!(res.edges[0].reason, "unique global definition match");
    assert_eq!(res.edges[0].confidence, 70);
    assert_eq!(res.stats.resolved, 1);
    assert_eq!(res.stats.ambiguous, 1);
}

// --- snapshots --------------------------------------------------------------

fn snap_symbol(name: &str) -> SnapshotSymbol {
    SnapshotSymbol { name: name.to_string(), kind: "function".to_string(), file: "app.py".to_string(), line: 1, col: 0 }
}

fn snapshot(names: &[&str]) -> Snapshot {
    Snapshot {
        version: 1,
        created_at: 0,
        repo_root: None,
        symbols: names.iter().map(|n| snap_symbol(n)).collect(),
        edges: Vec::new(),
        import_refs: Vec::new(),
    }
}

#[test]
fn snapshot_diff_against_itself_is_empty_and_swaps() {
    let a = snapshot(&["add"]);
    let b = snapshot(&["add", "subtract"]);
    let same = diff_snapshots(&a, &a, "a", "a");
    assert!(same.added_symbols.is_empty() && same.removed_symbols.is_empty());
    let ab = diff_snapshots(&a, &b, "a", "b");
    let ba = diff_snapshots(&b, &a, "b", "a");
    assert_eq!(ab.added_symbols, vec![snap_symbol("subtract")]);
    assert_eq!(ab.added_symbols, ba.removed_symbols);
    assert!(ab.removed_symbols.is_empty());
    assert_eq!(edge_end_label(&SnapshotSymbol { file: "src/x/app.py".to_string(), ..snap_symbol("add") }), "add (app.py)");
}

// --- graph ------------------------------------------------------------------

fn sample_graph() -> GraphData {
    let symbols = vec![
        sym(1, "add", "function", "app.py", 1),
        sym(2, "main", "function", "main.py", 1),
        sym(3, "helper", "function", "util.py", 5),
    ];
    let edges = vec![edge(2, 1, "calls", "main.py", 3), edge(1, 3, "calls", "app.py", 2)];
    build_graph(&symbols[0], &symbols, &edges, &vec!["main.py".to_string()])
}

#[test]
fn impact_graph_of_a_symbol() {
    let g = sample_graph();
    let ids: Vec<i64> = g.nodes.iter().map(|n| n.id).collect();
    assert_eq!(ids, vec![1, 3, 2]);
    let depths: Vec<usize> = g.nodes.iter().map(|n| n.impact_depth).collect();
    assert_eq!(depths, vec![0, 0, 1]);
    assert!(g.nodes[0].is_center);
    assert_eq!(g.nodes[0].label, "add (app.py:1)");
    assert_eq!(
        g.nodes[2].title,
        "main\nkind: function\nfile: main.py\nline: 1\nchanged in local git working tree (vs HEAD)\nimpact depth: 1"
    );
    assert!(g.nodes[2].is_changed);
    assert_eq!(g.edges.len(), 2);
    assert!(g.edges[0].changed);
    assert!(!g.edges[1].changed);
    assert_eq!(
        g.edges[0].title,
        "calls\nwhy: unique global definition match\norigin: main.py:3\nconfidence: 70%"
    );
}

#[test]
fn graph_respects_the_node_budget() {
    let mut symbols = vec![sym(0, "center", "function", "c.py", 1)];
    let mut edges = Vec::new();
    for i in 1..100 {
        symbols.push(sym(i, &format!("caller{}", i), "function", "c.py", i as u32 + 1));
        edges.push(edge(i, 0, "calls", "c.py", 1));
    }
    let g = build_graph(&symbols[0], &symbols, &edges, &Vec::new());
    assert_eq!(g.nodes.len(), 64);
    assert_eq!(g.edges.len(), 99);
}

#[test]
fn dot_output() {
    let data = GraphData {
        center_symbol: sym(1, "a", "function", "a.py", 1),
        nodes: vec![GraphNode {
            id: 1,
            label: "say \"hi\"".to_string(),
            kind: "function".to_string(),
            title: String::new(),
            file: "a.py".to_string(),
            line: 1,
            col: 0,
            is_center: true,
            is_changed: false,
            impact_depth: 0,
        }],
        edges: vec![GraphEdge { from: 1, to: -2, label: "calls".to_string(), title: String::new(), changed: true }],
    };
    let expected = "digraph LinkMap {\n  node [shape=box, style=filled, fontname=\"Helvetica,Arial,sans-serif\"];\n  edge [fontname=\"Helvetica,Arial,sans-serif\", fontsize=10];\n\n  n1 [label=\"say \\\"hi\\\"\\nfunction\", fillcolor=\"#FFD700\"];\n\n  n1 -> n-2 [label=\"calls\", color=\"#fbbf24\"];\n}\n";
    assert_eq!(graph_to_dot(&data), expected);
    assert_eq!(escape_dot("a\nb"), vec!['a', '\\', 'n', 'b']);
}

#[test]
fn html_escaping_and_styles() {
    assert_eq!(escape_html("<a href=\"x\">Tom & 'Jerry'</a>"), "&lt;a href=&quot;x&quot;&gt;Tom &amp; &#39;Jerry&#39;&lt;/a&gt;");
    assert_eq!(kind_color("route"), "#fbbf24");
    assert_eq!(kind_color("unknown"), "#abb2bf");
    assert_eq!(edge_color(false), "#64748b");
    let g = sample_graph();
    let center = node_style(&g.nodes[0]);
    assert_eq!(center.border_width, 4);
    assert_eq!(center.border, "#FFD700");
    let changed = node_style(&g.nodes[2]);
    assert_eq!(changed.border, "#fb7185");
    assert_eq!(changed.background, "#30151d");
}

#[test]
fn repo_file_links_stay_inside_the_repository() {
    assert_eq!(safe_repo_file_path("/repo", "src/a.ts"), Some("/repo/src/a.ts".to_string()));
    assert_eq!(safe_repo_file_path("/repo/", "a.ts"), Some("/repo/a.ts".to_string()));
    assert_eq!(safe_repo_file_path("/repo", "../etc/passwd"), None);
    assert_eq!(safe_repo_file_path("/repo", "/etc/passwd"), None);
    assert_eq!(safe_repo_file_path("\\\\?\\C:\\repo", "a.ts"), Some("C:/repo/a.ts".to_string()));
}

#[test]
fn page_from_template() {
    let g = GraphData { center_symbol: sym(7, "<A&B>", "function", "a.py", 1), nodes: Vec::new(), edges: Vec::new() };
    let assets = PageAssets {
        template: "T:{{center_name}}|{{vis_network_js_base64}}|{{nodes_json}}|{{edges_json}}|/* {{viewer_css}} */|/* {{viewer_js}} */|{{center_id}}".to_string(),
        vis_network_js: "abc".to_string(),
        css_base: "a".to_string(),
        css_layout: "b".to_string(),
        css_components: "c".to_string(),
        viewer_js: "js()".to_string(),
    };
    let page = generate_html(&g, "[1]", "[2]", &assets);
    assert_eq!(page, "T:&lt;A&amp;B&gt;|YWJj|[1]|[2]|a\nb\nc|js()|7");
}

// --- explain and reports ----------------------------------------------------

#[test]
fn explain_lists_connections_and_impact() {
    let g = sample_graph();
    let target = sym(1, "add", "function", "app.py", 1);
    let rels = vec![(edge(2, 1, "calls", "main.py", 3), sym(2, "main", "function", "main.py", 1))];
    let lines = explain_symbol(&target, &vec!["app.py".to_string()], &rels, &g, &Vec::new());
    assert_eq!(
        lines,
        vec![
            "add (function, function) - app.py:1",
            "  Changed in local git working tree (vs HEAD)",
            "",
            "  Called by:",
            "    <- main main.py:1 (function)",
            "      why: unique global definition match | confidence: 70% | origin: main.py:3",
            "",
            "  Likely impact:",
            "    main (main.py:1) [function] main.py:1",
            "",
        ]
    );
    let lonely = explain_symbol(&target, &Vec::new(), &Vec::new(), &GraphData { center_symbol: target.clone(), nodes: Vec::new(), edges: Vec::new() }, &Vec::new());
    assert_eq!(lonely, vec!["add (function, function) - app.py:1", "", "  No direct connections found.", ""]);
}

#[test]
fn explain_a_path() {
    let none = explain_path(&None, "A", "B");
    match none {
        Err(e) => assert_eq!(format_error(&e), "no path found from 'A' to 'B'."),
        Ok(_) => panic!("expected an error"),
    }
    let p = PathResult {
        from_query: "page.tsx".to_string(),
        to_query: "Hero".to_string(),
        steps: vec![PathStep {
            edge: Edge { relation: "imports".to_string(), ..edge(1, 2, "imports", "app/page.tsx", 1) },
            from: sym(1, "Page", "function", "app/page.tsx", 3),
            to: sym(2, "Hero", "function", "components/Hero.tsx", 1),
        }],
    };
    let lines = explain_path(&Some(p), "page.tsx", "Hero").unwrap();
    assert_eq!(lines[0], "Path: page.tsx -> Hero");
    assert_eq!(lines[2], "  1. Page [route] app/page.tsx:3");
    assert_eq!(lines[3], "     --imports--> Hero [component] components/Hero.tsx:1");
    assert_eq!(lines[4], "     why: unique global definition match | confidence: 70% | origin: app/page.tsx:1");
}

#[test]
fn report_pieces() {
    assert_eq!(format_duration(59), "59 seconds ago");
    assert_eq!(format_duration(3599), "59 minutes ago");
    assert_eq!(format_duration(7200), "2 hours ago");
    assert_eq!(format_duration(172800), "2 days ago");
    assert_eq!(pad_right_str("ok", 5), "ok   ");
    assert_eq!(pad_left_str("5s ago", 8), "  5s ago");
    assert_eq!(pad_right_str("toolong", 3), "toolong");
    let items: Vec<String> = (1..=4).map(|i| format!("i{}", i)).collect();
    assert_eq!(capped_list("T:", "  ", &items, 2), vec!["T:", "  i1", "  i2", "  ... and 2 more"]);
    assert!(capped_list("T:", "  ", &Vec::new(), 2).is_empty());
    assert_eq!(
        list_row(&sym(1, "add", "function", "app.py", 3)),
        format!("{:<30} {:<12} {}:{}", "add", "function", "app.py", 3)
    );
}

// --- parsing ----------------------------------------------------------------

#[test]
fn syntax_queries_yield_extracts() {
    let mut pool = ExtractorPool::new();
    let ex = pool
        .extract(
            b"function hello() {}\nhello();\n",
            Lang::JavaScript,
            "(function_declaration name: (identifier) @definition.function)\n(call_expression function: (identifier) @call)",
        )
        .unwrap();
    assert_eq!(ex.symbols.len(), 1);
    assert_eq!(ex.symbols[0].name, "hello");
    assert_eq!(ex.symbols[0].kind, "function");
    assert_eq!(ex.symbols[0].line, 1);
    assert_eq!(ex.symbols[0].col, 9);
    assert_eq!(ex.symbols[0].byte_start, 9);
    assert_eq!(ex.symbols[0].byte_end, 14);
    assert_eq!(ex.calls.len(), 1);
    assert_eq!(ex.calls[0].callee_name, "hello");
    assert_eq!(ex.calls[0].line, 2);
    // the language is ready now: its compiled query is used, not the text passed
    let again = pool.extract(b"hello();\n", Lang::JavaScript, "(((").unwrap();
    assert_eq!(again.calls.len(), 1);
    assert!(again.symbols.is_empty());
    let mut other = ExtractorPool::new();
    match other.extract(b"x", Lang::Python, "(((") {
        Err(e) => assert_eq!(e, ExtractError::Query(Lang::Python)),
        Ok(_) => panic!("expected a query error"),
    }
}

// --- paths between symbols --------------------------------------------------

fn path_symbols() -> Vec<Symbol> {
    vec![
        sym(1, "main", "function", "src/main.ts", 1),
        sym(2, "helper", "function", "src/helper.ts", 3),
        sym(3, "util", "function", "src/util.ts", 5),
        sym(4, "target", "function", "src/target.ts", 7),
        sym(5, "target", "call", "src/main.ts", 2),
    ]
}

#[test]
fn find_path_takes_the_shortest_route() {
    let symbols = path_symbols();
    // the long route is listed first: main -> helper -> util -> target
    let edges = vec![
        edge(1, 2, "calls", "src/main.ts", 2),
        edge(2, 3, "calls", "src/helper.ts", 4),
        edge(3, 4, "calls", "src/util.ts", 6),
        edge(1, 4, "calls", "src/main.ts", 9),
    ];
    let p = find_path(&symbols, &edges, "main", "target").unwrap();
    assert_eq!(p.from_query, "main");
    assert_eq!(p.to_query, "target");
    assert_eq!(p.steps.len(), 1);
    assert_eq!(p.steps[0].from.id, 1);
    assert_eq!(p.steps[0].to.id, 4);
    assert_eq!(p.steps[0].edge.origin_line, 9);
}

#[test]
fn find_path_follows_a_chain() {
    let symbols = path_symbols();
    let edges = vec![
        edge(3, 4, "calls", "src/util.ts", 6),
        edge(2, 3, "calls", "src/helper.ts", 4),
        edge(1, 2, "calls", "src/main.ts", 2),
    ];
    let p = find_path(&symbols, &edges, "main", "target").unwrap();
    let ids: Vec<(i64, i64)> = p.steps.iter().map(|s| (s.from.id, s.to.id)).collect();
    assert_eq!(ids, vec![(1, 2), (2, 3), (3, 4)]);
}

#[test]
fn find_path_none_without_a_connection() {
    let symbols = path_symbols();
    let edges = vec![edge(4, 1, "calls", "src/target.ts", 8)];
    assert!(find_path(&symbols, &edges, "main", "target").is_none());
    // an unknown query matches nothing
    assert!(find_path(&symbols, &edges, "nowhere", "target").is_none());
}

#[test]
fn find_path_matches_a_file_and_skips_call_sites_as_targets() {
    let symbols = path_symbols();
    // the call-site symbol 5 named "target" is no definition, so it is no end
    let edges = vec![edge(1, 5, "calls", "src/main.ts", 2)];
    assert!(find_path(&symbols, &edges, "main.ts", "target").is_none());
    let edges = vec![edge(2, 4, "calls", "src/helper.ts", 4)];
    let p = find_path(&symbols, &edges, "helper.ts", "target").unwrap();
    assert_eq!(p.steps.len(), 1);
    assert_eq!(p.steps[0].from.name, "helper");
}

#[test]
fn find_path_from_a_symbol_to_itself_is_empty() {
    let symbols = path_symbols();
    let p = find_path(&symbols, &Vec::new(), "target", "target").unwrap();
    assert!(p.steps.is_empty());
}

#[test]
fn dot_escaping_keeps_labels_quoted() {
    let e = escape_dot("say \"hi\"\nnow\"");
    let text: String = e.iter().collect();
    assert_eq!(text, "say \\\"hi\\\"\\nnow\\\"");
    // a backslash is doubled, so it can neither escape the closing quote nor
    // turn an escaped quote back into a plain one
    let tricky: String = escape_dot("a\\\"b\\").iter().collect();
    assert_eq!(tricky, "a\\\\\\\"b\\\\");
    assert!(!e.contains(&'\n'));
    for (i, c) in e.iter().enumerate() {
        if *c == '"' {
            assert!(i > 0 && e[i - 1] == '\\');
        }
    }
}

#[test]
fn page_embeds_the_script_in_padded_base64() {
    let g = GraphData { center_symbol: sym(1, "a", "function", "a.py", 1), nodes: Vec::new(), edges: Vec::new() };
    let assets = PageAssets {
        template: "{{vis_network_js_base64}}".to_string(),
        vis_network_js: "abcd".to_string(),
        css_base: String::new(),
        css_layout: String::new(),
        css_components: String::new(),
        viewer_js: String::new(),
    };
    assert_eq!(generate_html(&g, "[]", "[]", &assets), "YWJjZA==");
    let assets = PageAssets { vis_network_js: "é".to_string(), ..assets };
    assert_eq!(generate_html(&g, "[]", "[]", &assets), "w6k=");
}

#[test]
fn find_path_breaks_ties_by_edge_order() {
    let symbols = path_symbols();
    // two routes of two edges: through helper and through util
    let edges = vec![
        edge(1, 2, "calls", "src/main.ts", 2),
        edge(1, 3, "calls", "src/main.ts", 3),
        edge(3, 4, "calls", "src/util.ts", 6),
        edge(2, 4, "calls", "src/helper.ts", 4),
    ];
    let p = find_path(&symbols, &edges, "main", "target").unwrap();
    let ids: Vec<(i64, i64)> = p.steps.iter().map(|s| (s.from.id, s.to.id)).collect();
    assert_eq!(ids, vec![(1, 2), (2, 4)]);
    let edges = vec![
        edge(1, 3, "calls", "src/main.ts", 3),
        edge(1, 2, "calls", "src/main.ts", 2),
        edge(2, 4, "calls", "src/helper.ts", 4),
        edge(3, 4, "calls", "src/util.ts", 6),
    ];
    let p = find_path(&symbols, &edges, "main", "target").unwrap();
    let ids: Vec<(i64, i64)> = p.steps.iter().map(|s| (s.from.id, s.to.id)).collect();
    assert_eq!(ids, vec![(1, 3), (3, 4)]);
}

#[test]
fn route_files_add_their_laravel_routes() {
    let existing = || {
        let mut ex = extract_from_captures(&Vec::new());
        ex.routes.push(RawRoute {
            method: "GET".to_string(),
            path: "/old".to_string(),
            handler_name: "old".to_string(),
            line: 1,
            col: 0,
        });
        ex
    };
    let source = b"Route::post('/new', 'C@new');\n";
    let ex = with_laravel_routes(existing(), Lang::Php, "routes/web.php", source);
    let paths: Vec<&str> = ex.routes.iter().map(|r| r.path.as_str()).collect();
    assert_eq!(paths, vec!["/old", "/new"]);
    assert_eq!(ex.routes[1].method, "POST");
    // not a route file, or not a PHP file, or not UTF-8: nothing is added
    assert_eq!(with_laravel_routes(existing(), Lang::Php, "app/web.php", source).routes.len(), 1);
    assert_eq!(with_laravel_routes(existing(), Lang::JavaScript, "routes/web.php", source).routes.len(), 1);
    let bad = b"Route::post('/new', 'C@new');\xff\n";
    assert_eq!(with_laravel_routes(existing(), Lang::Php, "routes/web.php", bad).routes.len(), 1);
}
