//! The self-contained HTML page of a graph: node and edge styles, links to
//! the files in the repository, and the page assembled from its template.
use vstd::prelude::*;

use super::graph::{GraphData, GraphNode, GraphNodeView};
use crate::paths::split_on;
use crate::text::{
    chars_of, decimal_int, ends_with, owned, push_char, push_chars, push_decimal_i64, push_str,
    replace_all, replace_all_exec, replace_char, replace_char_exec, starts_with, starts_with_exec,
    string_of,
};
use crate::paths::split_exec;
use vstd::utf8::encode_utf8;

verus! {

/// The digit of a six-bit value in the standard base64 alphabet: `A`-`Z`,
/// `a`-`z`, `0`-`9`, `+` and `/`.
pub open spec fn base64_digit(v: int) -> char {
    if v < 26 {
        (65 + v) as char
    } else if v < 52 {
        (97 + v - 26) as char
    } else if v < 62 {
        (48 + v - 52) as char
    } else if v == 62 {
        '+'
    } else {
        '/'
    }
}

/// Standard base64 with padding (RFC 4648): each group of three bytes as
/// four digits of six bits, high bits first; a last group of one or two
/// bytes is filled with zero bits and padded with `=` to four characters.
pub open spec fn base64_encoding(b: Seq<u8>) -> Seq<char>
    decreases b.len(),
{
    if b.len() == 0 {
        Seq::empty()
    } else if b.len() == 1 {
        seq![base64_digit((b[0] as int) / 4), base64_digit(((b[0] as int) % 4) * 16), '=', '=']
    } else if b.len() == 2 {
        seq![
            base64_digit((b[0] as int) / 4),
            base64_digit(((b[0] as int) % 4) * 16 + (b[1] as int) / 16),
            base64_digit(((b[1] as int) % 16) * 4),
            '=',
        ]
    } else {
        seq![
            base64_digit((b[0] as int) / 4),
            base64_digit(((b[0] as int) % 4) * 16 + (b[1] as int) / 16),
            base64_digit(((b[1] as int) % 16) * 4 + (b[2] as int) / 64),
            base64_digit((b[2] as int) % 64),
        ] + base64_encoding(b.skip(3))
    }
}

/// `Engine::encode` of `base64`'s `STANDARD` engine (standard alphabet,
/// padded) on the UTF-8 bytes of `text`.
#[verifier::external_body]
fn encode_base64(text: &str) -> (r: String)
    ensures
        r@ == base64_encoding(encode_utf8(text@)),
{
    base64::Engine::encode(&base64::engine::general_purpose::STANDARD, text.as_bytes())
}

/// The files the page is assembled from.
pub struct PageAssets {
    pub template: String,
    pub vis_network_js: String,
    pub css_base: String,
    pub css_layout: String,
    pub css_components: String,
    pub viewer_js: String,
}

// ---------------------------------------------------------------------------
// Specification
// ---------------------------------------------------------------------------
/// The accent color of a semantic kind.
pub open spec fn kind_color_of(kind: Seq<char>) -> Seq<char> {
    if kind == "component"@ {
        "#60a5fa"@
    } else if kind == "route"@ {
        "#fbbf24"@
    } else if kind == "handler"@ {
        "#2dd4bf"@
    } else if kind == "function"@ {
        "#a78bfa"@
    } else if kind == "class"@ {
        "#f472b6"@
    } else if kind == "method"@ {
        "#22c55e"@
    } else if kind == "variable"@ {
        "#fb923c"@
    } else if kind == "call"@ {
        "#fb7185"@
    } else if kind == "render"@ {
        "#c084fc"@
    } else if kind == "import"@ {
        "#94a3b8"@
    } else {
        "#abb2bf"@
    }
}

pub open spec fn html_char(c: char) -> Seq<char> {
    if c == '&' {
        "&amp;"@
    } else if c == '<' {
        "&lt;"@
    } else if c == '>' {
        "&gt;"@
    } else if c == '"' {
        "&quot;"@
    } else if c == '\'' {
        "&#39;"@
    } else {
        seq![c]
    }
}

/// `&`, `<`, `>`, `"` and `'` written as HTML entities.
pub open spec fn html_escaped(s: Seq<char>) -> Seq<char>
    decreases s.len(),
{
    if s.len() == 0 {
        Seq::empty()
    } else {
        html_escaped(s.drop_last()) + html_char(s.last())
    }
}

/// How a node is drawn.
pub struct NodeStyle {
    pub border_width: u32,
    pub border: &'static str,
    pub background: &'static str,
    pub highlight: &'static str,
}

pub struct NodeStyleView {
    pub border_width: u32,
    pub border: Seq<char>,
    pub background: Seq<char>,
    pub highlight: Seq<char>,
}

impl View for NodeStyle {
    type V = NodeStyleView;

    open spec fn view(&self) -> NodeStyleView {
        NodeStyleView {
            border_width: self.border_width,
            border: self.border@,
            background: self.background@,
            highlight: self.highlight@,
        }
    }
}

/// The center has a wide gold border; a changed node a rose border and a
/// dark red background; others a border in their kind's color.
pub open spec fn node_style_of(n: GraphNodeView) -> NodeStyleView {
    NodeStyleView {
        border_width: if n.is_center {
            4
        } else {
            2
        },
        border: if n.is_center {
            "#FFD700"@
        } else if n.is_changed {
            "#fb7185"@
        } else {
            kind_color_of(n.kind)
        },
        background: if n.is_changed {
            "#30151d"@
        } else {
            "#141622"@
        },
        highlight: if n.is_changed {
            "#3a1a25"@
        } else {
            "#1b1e2d"@
        },
    }
}

pub open spec fn edge_color_of(changed: bool) -> Seq<char> {
    if changed {
        "#fbbf24"@
    } else {
        "#64748b"@
    }
}

/// `root` and `rel` joined by a `/` unless `root` is empty or ends with one.
pub open spec fn joined_path(root: Seq<char>, rel: Seq<char>) -> Seq<char> {
    if root.len() == 0 || ends_with(root, "/"@) {
        root + rel
    } else {
        root + "/"@ + rel
    }
}

/// An extended-length prefix (`\\?\UNC\` or `\\?\`) removed.
pub open spec fn without_verbatim_prefix(p: Seq<char>) -> Seq<char> {
    if starts_with(p, "\\\\?\\UNC\\"@) {
        "\\\\"@ + p.skip(8)
    } else if starts_with(p, "\\\\?\\"@) {
        p.skip(4)
    } else {
        p
    }
}

/// The file of a node as a path under the repository root, for links to the
/// editor: none for an absolute path or one that climbs out with `..`.
pub open spec fn repo_file_path_of(root: Seq<char>, rel: Seq<char>) -> Option<Seq<char>> {
    if starts_with(rel, "/"@) || split_on(rel, '/').contains(".."@) {
        None
    } else {
        Some(replace_char(without_verbatim_prefix(joined_path(root, rel)), '\\', "/"@))
    }
}

pub open spec fn css_of(a: Seq<char>, b: Seq<char>, c: Seq<char>) -> Seq<char> {
    a + "\n"@ + b + "\n"@ + c
}

/// The page: the template with its placeholders replaced, in this order, by
/// the escaped center name, the vis-network script in base64, the nodes and
/// edges as JSON, the style sheets, the viewer script and the center's id.
pub open spec fn page_of(
    center_name: Seq<char>,
    center_id: i64,
    nodes_json: Seq<char>,
    edges_json: Seq<char>,
    template: Seq<char>,
    vis_js: Seq<char>,
    css: Seq<char>,
    viewer_js: Seq<char>,
) -> Seq<char> {
    let t1 = replace_all(template, "{{center_name}}"@, html_escaped(center_name));
    let t2 = replace_all(t1, "{{vis_network_js_base64}}"@, base64_encoding(encode_utf8(vis_js)));
    let t3 = replace_all(t2, "{{nodes_json}}"@, nodes_json);
    let t4 = replace_all(t3, "{{edges_json}}"@, edges_json);
    let t5 = replace_all(t4, "/* {{viewer_css}} */"@, css);
    let t6 = replace_all(t5, "/* {{viewer_js}} */"@, viewer_js);
    replace_all(t6, "{{center_id}}"@, decimal_int(center_id as int))
}

// ---------------------------------------------------------------------------
// Implementation
// ---------------------------------------------------------------------------
/// The accent color of a semantic kind.
pub fn kind_color(kind: &str) -> (r: &'static str)
    ensures
        r@ == kind_color_of(kind@),
{
    if crate::text::str_eq(kind, "component") {
        "#60a5fa"
    } else if crate::text::str_eq(kind, "route") {
        "#fbbf24"
    } else if crate::text::str_eq(kind, "handler") {
        "#2dd4bf"
    } else if crate::text::str_eq(kind, "function") {
        "#a78bfa"
    } else if crate::text::str_eq(kind, "class") {
        "#f472b6"
    } else if crate::text::str_eq(kind, "method") {
        "#22c55e"
    } else if crate::text::str_eq(kind, "variable") {
        "#fb923c"
    } else if crate::text::str_eq(kind, "call") {
        "#fb7185"
    } else if crate::text::str_eq(kind, "render") {
        "#c084fc"
    } else if crate::text::str_eq(kind, "import") {
        "#94a3b8"
    } else {
        "#abb2bf"
    }
}

/// Text made safe to place in HTML.
pub fn escape_html(s: &str) -> (r: String)
    ensures
        r@ == html_escaped(s@),
{
    let cs = chars_of(s);
    let mut out = String::new();
    let mut i: usize = 0;
    while i < cs.len()
        invariant
            i <= cs.len(),
            cs@ == s@,
            out@ == html_escaped(cs@.take(i as int)),
        decreases cs.len() - i,
    {
        let c = cs[i];
        let ghost before = out@;
        if c == '&' {
            push_str(&mut out, "&amp;");
        } else if c == '<' {
            push_str(&mut out, "&lt;");
        } else if c == '>' {
            push_str(&mut out, "&gt;");
        } else if c == '"' {
            push_str(&mut out, "&quot;");
        } else if c == '\'' {
            push_str(&mut out, "&#39;");
        } else {
            push_char(&mut out, c);
        }
        assert(cs@.take(i + 1).drop_last() =~= cs@.take(i as int));
        assert(out@ =~= html_escaped(cs@.take(i + 1)));
        i = i + 1;
    }
    assert(cs@.take(i as int) =~= cs@);
    out
}

/// How a node is drawn on the page.
pub fn node_style(node: &GraphNode) -> (r: NodeStyle)
    ensures
        r@ == node_style_of(node@),
{
    let kind_color = kind_color(node.kind.as_str());
    NodeStyle {
        border_width: if node.is_center {
            4
        } else {
            2
        },
        border: if node.is_center {
            "#FFD700"
        } else if node.is_changed {
            "#fb7185"
        } else {
            kind_color
        },
        background: if node.is_changed {
            "#30151d"
        } else {
            "#141622"
        },
        highlight: if node.is_changed {
            "#3a1a25"
        } else {
            "#1b1e2d"
        },
    }
}

/// Amber for an edge that touches a change, slate otherwise.
pub fn edge_color(changed: bool) -> (r: &'static str)
    ensures
        r@ == edge_color_of(changed),
{
    if changed {
        "#fbbf24"
    } else {
        "#64748b"
    }
}

fn has_parent_component(parts: &Vec<Vec<char>>) -> (r: bool)
    ensures
        r == views_chars(parts@).contains(".."@),
{
    let ghost pv = views_chars(parts@);
    let dd = chars_of("..");
    let mut i: usize = 0;
    while i < parts.len()
        invariant
            i <= parts.len(),
            pv == views_chars(parts@),
            dd@ == ".."@,
            forall|k: int| 0 <= k < i ==> pv[k] != ".."@,
        decreases parts.len() - i,
    {
        if crate::text::slice_eq(parts[i].as_slice(), dd.as_slice()) {
            assert(pv[i as int] == ".."@);
            return true;
        }
        i = i + 1;
    }
    false
}

pub open spec fn views_chars(s: Seq<Vec<char>>) -> Seq<Seq<char>> {
    s.map_values(|v: Vec<char>| v@)
}

/// The file of a node as a path under the (canonical) repository root, for
/// links to the editor; `None` for an absolute path or one with `..`.
pub fn safe_repo_file_path(repo_root: &str, relative_path: &str) -> (r: Option<String>)
    ensures
        match r {
            Some(p) => repo_file_path_of(repo_root@, relative_path@) == Some(p@),
            None => repo_file_path_of(repo_root@, relative_path@) is None,
        },
{
    let rel = chars_of(relative_path);
    let slash = chars_of("/");
    if starts_with_exec(rel.as_slice(), slash.as_slice()) {
        return None;
    }
    let parts = split_exec(rel.as_slice(), '/');
    assert(views_chars(parts@) =~= crate::order::views(parts@));
    if has_parent_component(&parts) {
        return None;
    }
    let root = chars_of(repo_root);
    let mut joined = String::new();
    push_chars(&mut joined, root.as_slice());
    if !(root.len() == 0 || crate::text::ends_with_exec(root.as_slice(), slash.as_slice())) {
        push_str(&mut joined, "/");
    }
    push_chars(&mut joined, rel.as_slice());
    assert(joined@ =~= joined_path(repo_root@, relative_path@));
    let path = chars_of(joined.as_str());
    let unc = chars_of("\\\\?\\UNC\\");
    let verbatim = chars_of("\\\\?\\");
    proof {
        reveal_strlit("\\\\?\\UNC\\");
        reveal_strlit("\\\\?\\");
    }
    let stripped: Vec<char> = if starts_with_exec(path.as_slice(), unc.as_slice()) {
        let mut v = vec!['\\', '\\'];
        let mut k: usize = 8;
        while k < path.len()
            invariant
                8 <= k <= path.len(),
                v@ == seq!['\\', '\\'] + path@.subrange(8, k as int),
            decreases path.len() - k,
        {
            v.push(path[k]);
            assert(v@ =~= seq!['\\', '\\'] + path@.subrange(8, k + 1));
            k = k + 1;
        }
        assert(path@.subrange(8, path@.len() as int) =~= path@.skip(8));
        assert("\\\\"@ =~= seq!['\\', '\\']) by {
            reveal_strlit("\\\\");
        }
        v
    } else if starts_with_exec(path.as_slice(), verbatim.as_slice()) {
        let v = crate::text::slice_of(path.as_slice(), 4, path.len());
        assert(v@ =~= path@.skip(4));
        v
    } else {
        path
    };
    assert(stripped@ == without_verbatim_prefix(joined@));
    let forward = chars_of("/");
    let replaced = replace_char_exec(stripped.as_slice(), '\\', forward.as_slice());
    Some(string_of(replaced.as_slice()))
}

fn replace_in(s: String, pat: &str, rep: &str) -> (r: String)
    requires
        pat@.len() > 0,
    ensures
        r@ == replace_all(s@, pat@, rep@),
{
    let cs = chars_of(s.as_str());
    let p = chars_of(pat);
    let q = chars_of(rep);
    let out = replace_all_exec(cs.as_slice(), p.as_slice(), q.as_slice());
    string_of(out.as_slice())
}

/// The self-contained page of a graph: the template filled with the center's
/// name (escaped), the vis-network script (base64), the nodes' and edges'
/// JSON, the style sheets joined by line breaks, the viewer script and the
/// center's id.
pub fn generate_html(data: &GraphData, nodes_json: &str, edges_json: &str, assets: &PageAssets) -> (r: String)
    ensures
        r@ == page_of(
            data.center_symbol.name@,
            data.center_symbol.id,
            nodes_json@,
            edges_json@,
            assets.template@,
            assets.vis_network_js@,
            css_of(assets.css_base@, assets.css_layout@, assets.css_components@),
            assets.viewer_js@,
        ),
{
    let center_name = escape_html(data.center_symbol.name.as_str());
    let vis_base64 = encode_base64(assets.vis_network_js.as_str());
    let mut css = owned(assets.css_base.as_str());
    push_str(&mut css, "\n");
    push_str(&mut css, assets.css_layout.as_str());
    push_str(&mut css, "\n");
    push_str(&mut css, assets.css_components.as_str());
    let mut center_id = String::new();
    push_decimal_i64(&mut center_id, data.center_symbol.id);
    proof {
        reveal_strlit("{{center_name}}");
        reveal_strlit("{{vis_network_js_base64}}");
        reveal_strlit("{{nodes_json}}");
        reveal_strlit("{{edges_json}}");
        reveal_strlit("/* {{viewer_css}} */");
        reveal_strlit("/* {{viewer_js}} */");
        reveal_strlit("{{center_id}}");
    }
    let page = owned(assets.template.as_str());
    let page = replace_in(page, "{{center_name}}", center_name.as_str());
    let page = replace_in(page, "{{vis_network_js_base64}}", vis_base64.as_str());
    let page = replace_in(page, "{{nodes_json}}", nodes_json);
    let page = replace_in(page, "{{edges_json}}", edges_json);
    let page = replace_in(page, "/* {{viewer_css}} */", css.as_str());
    let page = replace_in(page, "/* {{viewer_js}} */", assets.viewer_js.as_str());
    replace_in(page, "{{center_id}}", center_id.as_str())
}

// ---------------------------------------------------------------------------
// Laws
// ---------------------------------------------------------------------------
/// Escaped text holds no `<`, `>`, `"` or `'`: it cannot open a tag or end
/// an attribute.
pub proof fn lemma_html_escaped_is_inert(s: Seq<char>)
    ensures
        forall|i: int|
            0 <= i < html_escaped(s).len() ==> {
                let c = #[trigger] html_escaped(s)[i];
                c != '<' && c != '>' && c != '"' && c != '\''
            },
    decreases s.len(),
{
    if s.len() > 0 {
        lemma_html_escaped_is_inert(s.drop_last());
        let a = html_escaped(s.drop_last());
        let b = html_char(s.last());
        reveal_strlit("&amp;");
        reveal_strlit("&lt;");
        reveal_strlit("&gt;");
        reveal_strlit("&quot;");
        reveal_strlit("&#39;");
        assert forall|i: int| 0 <= i < html_escaped(s).len() implies {
            let c = #[trigger] html_escaped(s)[i];
            c != '<' && c != '>' && c != '"' && c != '\''
        } by {
            if i >= a.len() {
                assert(html_escaped(s)[i] == b[i - a.len()]);
            } else {
                assert(html_escaped(s)[i] == a[i]);
            }
        }
    }
}

/// A link path is only made for a relative path that does not climb out of
/// the repository with `..`, and it starts with the repository root (up to
/// an extended-length prefix and separators).
pub proof fn lemma_repo_file_path_contained(root: Seq<char>, rel: Seq<char>)
    ensures
        repo_file_path_of(root, rel) is Some ==> !starts_with(rel, "/"@) && !split_on(rel, '/').contains(
            ".."@,
        ),
{
}

} // verus!
