//! The graph as Graphviz DOT and as a self-contained HTML viewer.
use vstd::prelude::*;

use crate::analyzer::{edge_kind_name, edge_kind_name_exec, node_kind_name, node_kind_name_exec};
use crate::model::{EdgeKind, LensEdgeV, LensGraph, LensGraphV, LensNodeV, edges_view, nodes_view};
use crate::text::{decimal, decimal_string, lacks, lemma_replaced_lacks, owned, push_str, replace, replaced};

verus! {

/// `value` with `\`, `"` and newlines escaped for a DOT string.
pub open spec fn dot_escaped(value: Seq<char>) -> Seq<char> {
    replaced(replaced(replaced(value, "\\"@, "\\\\"@), "\""@, "\\\""@), "\n"@, "\\n"@)
}

/// `value` with `&`, `<`, `>`, `"` and `'` written as HTML character references.
pub open spec fn html_escaped(value: Seq<char>) -> Seq<char> {
    replaced(
        replaced(
            replaced(replaced(replaced(value, "&"@, "&amp;"@), "<"@, "&lt;"@), ">"@, "&gt;"@),
            "\""@,
            "&quot;"@,
        ),
        "'"@,
        "&#39;"@,
    )
}

/// The parts joined with nothing between them.
pub open spec fn concat_all(parts: Seq<Seq<char>>) -> Seq<char>
    decreases parts.len(),
{
    if parts.len() == 0 {
        seq![]
    } else {
        concat_all(parts.drop_last()) + parts.last()
    }
}

pub open spec fn dot_header() -> Seq<char> {
    "digraph code_path_lens {\n  rankdir=LR;\n  node [shape=box, fontname=\"monospace\"];\n"@
}

pub open spec fn dot_node_line(n: LensNodeV) -> Seq<char> {
    "  \""@ + dot_escaped(n.id) + "\" [label=\""@ + dot_escaped(n.label) + "\\n"@ + node_kind_name(n.kind) + "\"];\n"@
}

pub open spec fn edge_style(k: EdgeKind) -> Seq<char> {
    match k {
        EdgeKind::UnresolvedCall => "dashed"@,
        EdgeKind::UsesType => "dotted"@,
        _ => "solid"@,
    }
}

pub open spec fn dot_edge_line(e: LensEdgeV) -> Seq<char> {
    "  \""@ + dot_escaped(e.from) + "\" -> \""@ + dot_escaped(e.to) + "\" [label=\""@ + edge_kind_name(e.kind)
        + "\", style="@ + edge_style(e.kind) + "];\n"@
}

/// Unresolved calls are drawn dashed, type uses dotted, every other edge solid.
pub proof fn lemma_edge_styles(k: EdgeKind)
    ensures
        k == EdgeKind::UnresolvedCall ==> edge_style(k) == "dashed"@,
        k == EdgeKind::UsesType ==> edge_style(k) == "dotted"@,
        k != EdgeKind::UnresolvedCall && k != EdgeKind::UsesType ==> edge_style(k) == "solid"@,
{
}

/// The graph in Graphviz DOT: a header, a line per node, a line per edge, and `}`.
pub open spec fn dot_of(g: LensGraphV) -> Seq<char> {
    dot_header() + concat_all(g.nodes.map_values(|n: LensNodeV| dot_node_line(n))) + concat_all(
        g.edges.map_values(|e: LensEdgeV| dot_edge_line(e)),
    ) + "}\n"@
}

/// `value` escaped for a DOT string.
pub fn dot_escape(value: &str) -> (res: String)
    ensures
        res@ == dot_escaped(value@),
{
    proof {
        reveal_strlit("\\");
        reveal_strlit("\"");
        reveal_strlit("\n");
    }
    let a = replace(value, "\\", "\\\\");
    let b = replace(a.as_str(), "\"", "\\\"");
    replace(b.as_str(), "\n", "\\n")
}

/// No escaped text holds a character that could open or close markup or an
/// attribute value: `<`, `>`, `"` or `'`.
pub proof fn lemma_html_escaped_is_inert(value: Seq<char>)
    ensures
        lacks(html_escaped(value), '<'),
        lacks(html_escaped(value), '>'),
        lacks(html_escaped(value), '"'),
        lacks(html_escaped(value), '\''),
{
    reveal_strlit("&");
    reveal_strlit("<");
    reveal_strlit(">");
    reveal_strlit("\"");
    reveal_strlit("'");
    reveal_strlit("&amp;");
    reveal_strlit("&lt;");
    reveal_strlit("&gt;");
    reveal_strlit("&quot;");
    reveal_strlit("&#39;");
    let v1 = replaced(value, "&"@, "&amp;"@);
    let v2 = replaced(v1, "<"@, "&lt;"@);
    let v3 = replaced(v2, ">"@, "&gt;"@);
    let v4 = replaced(v3, "\""@, "&quot;"@);
    assert("<"@ =~= seq!['<']);
    assert(">"@ =~= seq!['>']);
    assert("\""@ =~= seq!['"']);
    assert("'"@ =~= seq!['\'']);
    lemma_replaced_lacks(v1, "<"@, "&lt;"@, '<');
    lemma_replaced_lacks(v2, ">"@, "&gt;"@, '<');
    lemma_replaced_lacks(v2, ">"@, "&gt;"@, '>');
    lemma_replaced_lacks(v3, "\""@, "&quot;"@, '<');
    lemma_replaced_lacks(v3, "\""@, "&quot;"@, '>');
    lemma_replaced_lacks(v3, "\""@, "&quot;"@, '"');
    lemma_replaced_lacks(v4, "'"@, "&#39;"@, '<');
    lemma_replaced_lacks(v4, "'"@, "&#39;"@, '>');
    lemma_replaced_lacks(v4, "'"@, "&#39;"@, '"');
    lemma_replaced_lacks(v4, "'"@, "&#39;"@, '\'');
}

/// `value` escaped for HTML text and attributes.
pub fn html_escape(value: &str) -> (res: String)
    ensures
        res@ == html_escaped(value@),
        lacks(res@, '<') && lacks(res@, '>') && lacks(res@, '"') && lacks(res@, '\''),
{
    proof {
        lemma_html_escaped_is_inert(value@);
    }
    proof {
        reveal_strlit("&");
        reveal_strlit("<");
        reveal_strlit(">");
        reveal_strlit("\"");
        reveal_strlit("'");
    }
    let a = replace(value, "&", "&amp;");
    let b = replace(a.as_str(), "<", "&lt;");
    let c = replace(b.as_str(), ">", "&gt;");
    let d = replace(c.as_str(), "\"", "&quot;");
    replace(d.as_str(), "'", "&#39;")
}

/// The graph in Graphviz DOT (see `dot_of`).
pub fn render_dot(graph: &LensGraph) -> (res: String)
    ensures
        res@ == dot_of(graph@),
{
    let ghost ns = nodes_view(graph.nodes@);
    let ghost es = edges_view(graph.edges@);
    let ghost node_lines = ns.map_values(|n: LensNodeV| dot_node_line(n));
    let ghost edge_lines = es.map_values(|e: LensEdgeV| dot_edge_line(e));
    let mut output = owned("digraph code_path_lens {\n  rankdir=LR;\n  node [shape=box, fontname=\"monospace\"];\n");
    let mut i: usize = 0;
    assert(node_lines.subrange(0, 0) =~= Seq::<Seq<char>>::empty());
    while i < graph.nodes.len()
        invariant
            i <= graph.nodes.len(),
            ns == nodes_view(graph.nodes@),
            node_lines == ns.map_values(|n: LensNodeV| dot_node_line(n)),
            output@ == dot_header() + concat_all(node_lines.subrange(0, i as int)),
        decreases graph.nodes.len() - i,
    {
        let node = &graph.nodes[i];
        assert(ns[i as int] == node@);
        let ghost before = output@;
        push_str(&mut output, "  \"");
        push_str(&mut output, dot_escape(node.id.as_str()).as_str());
        push_str(&mut output, "\" [label=\"");
        push_str(&mut output, dot_escape(node.label.as_str()).as_str());
        push_str(&mut output, "\\n");
        push_str(&mut output, node_kind_name_exec(node.kind));
        push_str(&mut output, "\"];\n");
        proof {
            let t = node_lines.subrange(0, i + 1);
            assert(t.drop_last() =~= node_lines.subrange(0, i as int));
            assert(t.last() == node_lines[i as int]);
            assert(output@ =~= before + dot_node_line(ns[i as int]));
        }
        i = i + 1;
    }
    assert(node_lines.subrange(0, i as int) =~= node_lines);
    let ghost after_nodes = output@;
    let mut k: usize = 0;
    assert(edge_lines.subrange(0, 0) =~= Seq::<Seq<char>>::empty());
    while k < graph.edges.len()
        invariant
            k <= graph.edges.len(),
            es == edges_view(graph.edges@),
            edge_lines == es.map_values(|e: LensEdgeV| dot_edge_line(e)),
            output@ == after_nodes + concat_all(edge_lines.subrange(0, k as int)),
        decreases graph.edges.len() - k,
    {
        let e = &graph.edges[k];
        assert(es[k as int] == e@);
        let ghost before = output@;
        let style = match e.kind {
            EdgeKind::UnresolvedCall => "dashed",
            EdgeKind::UsesType => "dotted",
            _ => "solid",
        };
        push_str(&mut output, "  \"");
        push_str(&mut output, dot_escape(e.from.as_str()).as_str());
        push_str(&mut output, "\" -> \"");
        push_str(&mut output, dot_escape(e.to.as_str()).as_str());
        push_str(&mut output, "\" [label=\"");
        push_str(&mut output, edge_kind_name_exec(e.kind));
        push_str(&mut output, "\", style=");
        push_str(&mut output, style);
        push_str(&mut output, "];\n");
        proof {
            let t = edge_lines.subrange(0, k + 1);
            assert(t.drop_last() =~= edge_lines.subrange(0, k as int));
            assert(t.last() == edge_lines[k as int]);
            assert(output@ =~= before + dot_edge_line(es[k as int]));
        }
        k = k + 1;
    }
    assert(edge_lines.subrange(0, k as int) =~= edge_lines);
    push_str(&mut output, "}\n");
    output
}

// ----------------------------------------------------------------------------
// The HTML viewer
// ----------------------------------------------------------------------------

pub const HTML_HEAD: &'static str = "<!doctype html>\n<html lang=\"en\" data-theme=\"paper\">\n<head>\n<meta charset=\"utf-8\">\n<meta name=\"viewport\" content=\"width=device-width,initial-scale=1\">\n<meta name=\"color-scheme\" content=\"light dark\">\n<title>";

pub const HTML_AFTER_TITLE: &'static str = "</title>\n<style>\n:root{--paper:#e8ddc2;--ink:#172033;--muted:#5b6370;--rule:#384359;--call:#1859a9;--entry:#a83220;--type:#35622d;--boundary:#7a5100;--unresolved:#8c2c3a;--focus:#995f00;--panel:#f7f0de}\n[data-theme=\"night\"]{--paper:#111827;--ink:#f7f0de;--muted:#c1c8d4;--rule:#71809b;--call:#80b5ff;--entry:#ff8f79;--type:#a9dc96;--boundary:#f2c565;--unresolved:#ff9aa7;--focus:#f2c565;--panel:#1b263a}\n*{box-sizing:border-box} body{margin:0;background:var(--paper);color:var(--ink);font:16px/1.55 ui-monospace,SFMono-Regular,Menlo,Consolas,monospace} a{color:var(--call)} a:focus-visible,button:focus-visible,input:focus-visible{outline:3px solid var(--focus);outline-offset:3px} .skip{position:absolute;left:12px;top:-80px;background:var(--ink);color:var(--paper);padding:12px;z-index:5}.skip:focus{top:12px} header,main,footer{width:min(1180px,calc(100% - 32px));margin:auto}header{padding:40px 0 24px;border-bottom:2px solid var(--rule)}.eyebrow{margin:0 0 8px;color:var(--entry);font-size:13px;text-transform:uppercase;letter-spacing:.12em}h1{font:700 clamp(32px,6vw,64px)/.98 Georgia,serif;margin:0;overflow-wrap:anywhere}.notice{max-width:72ch;color:var(--muted)}.summary{display:flex;gap:24px;flex-wrap:wrap;margin-top:20px}.summary strong{display:block;color:var(--ink);font-size:20px}.summary span{color:var(--muted);font-size:13px}main{padding:28px 0 64px}.toolbar{display:flex;align-items:end;gap:16px;flex-wrap:wrap;margin-bottom:24px}label{display:grid;gap:6px;font-size:13px;color:var(--muted)}input{min-height:44px;width:min(360px,80vw);border:2px solid var(--rule);background:var(--panel);color:var(--ink);padding:8px 12px;font:inherit}button{min-height:44px;border:2px solid var(--rule);border-radius:2px;background:var(--panel);color:var(--ink);padding:8px 14px;font:700 14px inherit;box-shadow:3px 3px 0 var(--rule);cursor:pointer}button:active{transform:translate(2px,2px);box-shadow:1px 1px 0 var(--rule)}.layout{display:grid;grid-template-columns:minmax(0,1.25fr) minmax(300px,.75fr);gap:24px}.map{min-height:420px;border:2px solid var(--rule);padding:24px;background:var(--panel);overflow:auto}.nodes{position:relative;display:grid;grid-template-columns:repeat(3,minmax(150px,1fr));gap:48px 28px;min-width:640px}.node{position:relative;text-align:left;min-height:88px;background:var(--paper);z-index:1}.node small{display:block;color:var(--muted);font-weight:400;margin-top:4px}.node[data-kind=\"entry\"]{border-color:var(--entry);color:var(--entry)}.node[data-kind=\"type\"]{border-style:dotted;border-color:var(--type)}.node[data-kind=\"data_boundary\"]{border-color:var(--boundary)}.node[data-kind=\"unresolved\"]{border-style:dashed;border-color:var(--unresolved)}.node[aria-pressed=\"true\"]{box-shadow:5px 5px 0 var(--call)}.key{display:flex;gap:16px;flex-wrap:wrap;margin:0 0 20px;padding:0;list-style:none;color:var(--muted);font-size:13px}.key span{display:inline-block;width:14px;height:10px;border:2px solid currentColor;margin-right:5px}.evidence{border-left:2px solid var(--rule);padding-left:20px;min-width:0}.evidence h2{font:700 28px/1.1 Georgia,serif;margin:0 0 8px}.meta,.reason{color:var(--muted)}pre{white-space:pre;overflow:auto;background:var(--ink);color:var(--paper);padding:16px;font:13px/1.6 inherit;tab-size:2}.edges{margin-top:32px;border-top:2px solid var(--rule);padding-top:20px}.edges li{margin:10px 0}.warnings{margin:32px 0;padding:16px 20px;border:2px solid var(--boundary);background:color-mix(in srgb,var(--boundary) 8%,transparent)}footer{border-top:2px solid var(--rule);padding:24px 0 40px;color:var(--muted);font-size:13px}[hidden]{display:none!important}@media(max-width:760px){header{padding-top:28px}.layout{grid-template-columns:1fr}.map{min-height:320px;padding:16px}.evidence{border-left:0;border-top:2px solid var(--rule);padding:20px 0 0}}@media(prefers-reduced-motion:no-preference){.node{animation:settle .42s both;animation-delay:calc(var(--i)*25ms)}@keyframes settle{from{opacity:0;transform:translateY(8px)}}}@media(prefers-reduced-motion:reduce){*,*::before,*::after{scroll-behavior:auto!important;animation-duration:.01ms!important;animation-iteration-count:1!important;transition-duration:.01ms!important}}\n</style>\n</head>\n<body>\n<a class=\"skip\" href=\"#main\">Skip to evidence</a>\n<header>\n  <p class=\"eyebrow\">Code Path Lens / static review slice</p>\n  <h1>";

pub const HTML_AFTER_HEADING: &'static str = "</h1>\n  <p class=\"notice\">";

pub const HTML_AFTER_NOTICE: &'static str = "</p>\n  <div class=\"summary\" aria-label=\"Scan summary\"><div><strong>";

pub const HTML_AFTER_NODES: &'static str = "</strong><span>nodes</span></div><div><strong>";

pub const HTML_AFTER_EDGES: &'static str = "</strong><span>edges</span></div><div><strong>";

pub const HTML_AFTER_FILES: &'static str = "</strong><span>parsed files</span></div><div><strong>";

pub const HTML_AFTER_DEPTH: &'static str = "</strong><span>call depth</span></div></div>\n</header>\n<main id=\"main\">\n  <div class=\"toolbar\"><label for=\"filter\">Filter evidence<input id=\"filter\" type=\"search\" autocomplete=\"off\" placeholder=\"Function, type, boundary\u{2026}\"></label><button id=\"theme\" type=\"button\" aria-pressed=\"false\">Use night paper</button></div>\n  <ul class=\"key\" aria-label=\"Node key\"><li><span style=\"color:var(--entry)\"></span>Entry</li><li><span style=\"color:var(--call)\"></span>Function</li><li><span style=\"color:var(--type)\"></span>Type</li><li><span style=\"color:var(--boundary)\"></span>Boundary</li><li><span style=\"color:var(--unresolved)\"></span>Unresolved</li></ul>\n  <div class=\"layout\"><section class=\"map\" aria-label=\"Bounded code path\"><div id=\"nodes\" class=\"nodes\"></div><p id=\"empty\" hidden>No nodes match this filter. Clear the filter to restore the path.</p></section><aside class=\"evidence\" aria-live=\"polite\"><h2 id=\"ev-title\">Select evidence</h2><p id=\"ev-meta\" class=\"meta\">Use Tab or arrow keys to move through nodes, then Enter to inspect the source excerpt.</p><p id=\"ev-reason\" class=\"reason\"></p><a id=\"ev-link\" hidden>Open source</a><pre id=\"ev-source\" hidden></pre></aside></div>\n  <section class=\"edges\"><h2>Evidence ledger</h2><ol id=\"edge-list\"></ol></section>\n  <section class=\"warnings\"><h2>Limits and warnings</h2><ul id=\"warning-list\"></ul></section>\n</main>\n<footer>Generated locally by Code Path Lens 0.1.0. No source was uploaded. This is bounded static evidence, not a runtime trace.</footer>\n<script id=\"lens-data\" type=\"application/json\">";

pub const HTML_TAIL: &'static str = "</script>\n<script>\nconst graph=JSON.parse(document.querySelector('#lens-data').textContent);const nodes=document.querySelector('#nodes'),filter=document.querySelector('#filter'),empty=document.querySelector('#empty');let buttons=[];\nconst kindLabel=s=>s.replaceAll('_',' ');function select(node,button){buttons.forEach(b=>b.setAttribute('aria-pressed',b===button?'true':'false'));document.querySelector('#ev-title').textContent=node.label;document.querySelector('#ev-meta').textContent=[node.language,node.location&&`${node.location.path}:${node.location.line}`,kindLabel(node.kind)].filter(Boolean).join(' \u{b7} ');document.querySelector('#ev-reason').textContent=node.evidence;const link=document.querySelector('#ev-link'),source=document.querySelector('#ev-source');if(node.location){link.hidden=false;link.href=node.location.link;link.textContent=`Open ${node.location.path} at line ${node.location.line}`;}else link.hidden=true;if(node.excerpt){source.hidden=false;source.textContent=node.excerpt;}else source.hidden=true;}\ngraph.nodes.forEach((node,i)=>{const b=document.createElement('button');b.type='button';b.className='node';b.dataset.kind=node.kind;b.style.setProperty('--i',i);b.setAttribute('aria-pressed','false');b.innerHTML=`<strong></strong><small></small>`;b.querySelector('strong').textContent=node.label;b.querySelector('small').textContent=kindLabel(node.kind)+(node.location?` \u{b7} ${node.location.path}:${node.location.line}`:'');b.addEventListener('click',()=>select(node,b));b.addEventListener('keydown',e=>{if(!['ArrowRight','ArrowDown','ArrowLeft','ArrowUp'].includes(e.key))return;e.preventDefault();const shown=buttons.filter(x=>!x.hidden),at=shown.indexOf(b),step=['ArrowRight','ArrowDown'].includes(e.key)?1:-1;shown[(at+step+shown.length)%shown.length]?.focus();});nodes.append(b);buttons.push(b);});if(graph.nodes[0])select(graph.nodes[0],buttons[0]);\ngraph.edges.forEach(edge=>{const from=graph.nodes.find(n=>n.id===edge.from)?.label||edge.from,to=graph.nodes.find(n=>n.id===edge.to)?.label||edge.to,li=document.createElement('li');li.textContent=`${from} \u{2014} ${kindLabel(edge.kind)} \u{2192} ${to}. ${edge.evidence}`;document.querySelector('#edge-list').append(li);});graph.warnings.forEach(w=>{const li=document.createElement('li');li.textContent=w;document.querySelector('#warning-list').append(li);});\nfunction applyFilter(){const q=filter.value.trim().toLowerCase();let shown=0;graph.nodes.forEach((node,i)=>{const visible=!q||`${node.label} ${node.kind} ${node.evidence} ${node.location?.path||''}`.toLowerCase().includes(q);buttons[i].hidden=!visible;if(visible)shown++;});empty.hidden=shown>0;}filter.addEventListener('input',applyFilter);document.addEventListener('keydown',e=>{if(e.key==='/'&&document.activeElement!==filter){e.preventDefault();filter.focus();}if(e.key==='Escape'&&document.activeElement===filter){filter.value='';applyFilter();filter.blur();}});\ndocument.querySelector('#theme').addEventListener('click',e=>{const night=document.documentElement.dataset.theme!=='night';document.documentElement.dataset.theme=night?'night':'paper';e.currentTarget.setAttribute('aria-pressed',String(night));e.currentTarget.textContent=night?'Use paper theme':'Use night paper';});\n</script>\n</body></html>";

/// The JSON text made safe inside a `<script>` element: every `</` written `<\/`.
pub open spec fn script_safe(json: Seq<char>) -> Seq<char> {
    replaced(json, "</"@, "<\\/"@)
}

/// No `<` in `s` is followed by `/`.
pub open spec fn no_end_tag_opener(s: Seq<char>) -> bool {
    forall|i: int| 0 <= i < s.len() - 1 && #[trigger] s[i] == '<' ==> s[i + 1] != '/'
}

proof fn lemma_script_safe_head(s: Seq<char>)
    ensures
        replaced(s, "</"@, "<\\/"@).len() > 0 ==> replaced(s, "</"@, "<\\/"@)[0] == '<' || (s.len() > 0
            && replaced(s, "</"@, "<\\/"@)[0] == s[0]),
        s.len() > 0 ==> replaced(s, "</"@, "<\\/"@).len() > 0,
{
    reveal_strlit("</");
    reveal_strlit("<\\/");
}

proof fn lemma_script_safe_no_end_tag(s: Seq<char>)
    ensures
        no_end_tag_opener(replaced(s, "</"@, "<\\/"@)),
    decreases s.len(),
{
    reveal_strlit("</");
    reveal_strlit("<\\/");
    let p = "</"@;
    let r = "<\\/"@;
    assert(p =~= seq!['<', '/']);
    assert(r =~= seq!['<', '\\', '/']);
    let res = replaced(s, p, r);
    if s.len() < 2 {
        assert(res == s);
    } else if s.subrange(0, 2) == p {
        let rest = s.subrange(2, s.len() as int);
        lemma_script_safe_no_end_tag(rest);
        let tail = replaced(rest, p, r);
        assert(res == r + tail);
        assert forall|i: int| 0 <= i < res.len() - 1 && #[trigger] res[i] == '<' implies res[i + 1] != '/' by {
            if i >= 3 {
                assert(res[i] == tail[i - 3]);
                assert(res[i + 1] == tail[i - 2]);
            } else if i == 0 {
                assert(res[1] == '\\');
            }
        }
    } else {
        let rest = s.subrange(1, s.len() as int);
        lemma_script_safe_no_end_tag(rest);
        lemma_script_safe_head(rest);
        let tail = replaced(rest, p, r);
        assert(res == seq![s[0]] + tail);
        assert forall|i: int| 0 <= i < res.len() - 1 && #[trigger] res[i] == '<' implies res[i + 1] != '/' by {
            if i >= 1 {
                assert(res[i] == tail[i - 1]);
                assert(res[i + 1] == tail[i]);
            } else {
                assert(res[0] == s[0]);
                assert(res[1] == tail[0]);
                if tail[0] == '/' {
                    assert(rest[0] == '/');
                    assert(s[1] == '/');
                    assert(s.subrange(0, 2) =~= p);
                }
            }
        }
    }
}

/// The JSON embedded in the viewer cannot end its `<script>` element: no `<` in it
/// is followed by `/`.
pub proof fn lemma_embedded_json_stays_in_its_script(json: Seq<char>)
    ensures
        no_end_tag_opener(script_safe(json)),
{
    lemma_script_safe_no_end_tag(json);
}

/// The viewer page for a graph whose JSON text is `json`: the template with the
/// escaped title, heading and notice, the node, edge and parsed-file counts, the
/// depth, and the embedded JSON.
pub open spec fn html_of(g: LensGraphV, json: Seq<char>) -> Seq<char> {
    HTML_HEAD@ + html_escaped(g.symbol + " \u{2014} Code Path Lens"@) + HTML_AFTER_TITLE@ + html_escaped(g.symbol)
        + HTML_AFTER_HEADING@ + html_escaped(g.approximation_notice) + HTML_AFTER_NOTICE@ + decimal(
        g.nodes.len(),
    ) + HTML_AFTER_NODES@ + decimal(g.edges.len()) + HTML_AFTER_EDGES@ + decimal(g.scanned.parsed_files as nat)
        + HTML_AFTER_FILES@ + decimal(g.limits.depth as nat) + HTML_AFTER_DEPTH@ + script_safe(json) + HTML_TAIL@
}

/// The self-contained viewer page for `graph`, embedding `json`, the graph's JSON.
pub fn render_html(graph: &LensGraph, json: &str) -> (res: String)
    ensures
        res@ == html_of(graph@, json@),
{
    proof {
        reveal_strlit("</");
    }
    let data = replace(json, "</", "<\\/");
    let mut title_text = graph.symbol.clone();
    push_str(&mut title_text, " \u{2014} Code Path Lens");
    let title = html_escape(title_text.as_str());
    let mut page = owned(HTML_HEAD);
    push_str(&mut page, title.as_str());
    push_str(&mut page, HTML_AFTER_TITLE);
    push_str(&mut page, html_escape(graph.symbol.as_str()).as_str());
    push_str(&mut page, HTML_AFTER_HEADING);
    push_str(&mut page, html_escape(graph.approximation_notice.as_str()).as_str());
    push_str(&mut page, HTML_AFTER_NOTICE);
    push_str(&mut page, decimal_string(graph.nodes.len()).as_str());
    push_str(&mut page, HTML_AFTER_NODES);
    push_str(&mut page, decimal_string(graph.edges.len()).as_str());
    push_str(&mut page, HTML_AFTER_EDGES);
    push_str(&mut page, decimal_string(graph.scanned.parsed_files).as_str());
    push_str(&mut page, HTML_AFTER_FILES);
    push_str(&mut page, decimal_string(graph.limits.depth).as_str());
    push_str(&mut page, HTML_AFTER_DEPTH);
    push_str(&mut page, data.as_str());
    push_str(&mut page, HTML_TAIL);
    page
}

} // verus!
