//! The whole pipeline: bytes to nodes, nodes to styled text, styled text to
//! the fewest style transitions, and those to markup.
//!
//! Styles are carried through the run optimizer as keys: key `k` stands for
//! entry `k` of a table of the distinct non-plain styles, in the order in
//! which text first shows them.
use crate::nodes::{crlf_normalized, lexemes, nodes_are, AnsiNode, TerminalOutputParser};
use crate::runs::{current_key, optimize, optimized, Mark};
use crate::styles::{apply_groups, close_tag, open_tag, plain_style, StyleNode};
use crate::text::push_char;
use vstd::prelude::*;
use vstd::string::*;

verus! {

/// The style in effect after the nodes `ns`: every SGR control sequence
/// (final byte `m`) applies its groups, other nodes leave it.
pub open spec fn style_after(ns: Seq<AnsiNode>) -> StyleNode
    decreases ns.len(),
{
    if ns.len() == 0 {
        plain_style()
    } else {
        let s = style_after(ns.drop_last());
        match ns.last() {
            AnsiNode::Csi { params, code, .. } => if code == 'm' {
                apply_groups(s, params.deep_view())
            } else {
                s
            },
            _ => s,
        }
    }
}

/// The style that node `i` of `ns` is shown in.
pub open spec fn style_at(ns: Seq<AnsiNode>, i: int) -> StyleNode {
    style_after(ns.take(i + 1))
}

/// The distinct non-plain styles of the first `n` nodes' text, in order of
/// first appearance.
pub open spec fn style_table(ns: Seq<AnsiNode>, n: int) -> Seq<StyleNode>
    decreases n,
{
    if n <= 0 {
        Seq::empty()
    } else {
        let t = style_table(ns, n - 1);
        let st = style_at(ns, n - 1);
        if ns[n - 1] is Text && st != plain_style() && !t.contains(st) {
            t.push(st)
        } else {
            t
        }
    }
}

/// The key of a style: none for the plain style, else its table position.
pub open spec fn key_in(t: Seq<StyleNode>, st: StyleNode) -> Option<u64> {
    if st != plain_style() && t.contains(st) {
        Some((choose|j: int| 0 <= j < t.len() && t[j] == st) as u64)
    } else {
        None
    }
}

pub open spec fn glyph(c: char) -> Mark {
    Mark::Glyph(c)
}

pub open spec fn glyphs(cs: Seq<char>) -> Seq<Mark> {
    cs.map_values(|c: char| glyph(c))
}

/// A node's text, wrapped in its style when it has one.
pub open spec fn node_marks(n: AnsiNode, key: Option<u64>) -> Seq<Mark> {
    match n {
        AnsiNode::Text(s) => match key {
            Some(k) => seq![Mark::Open(k)] + glyphs(s@) + seq![Mark::Close],
            None => glyphs(s@),
        },
        _ => Seq::empty(),
    }
}

/// The style stream of the first `n` nodes, one open and close per node.
pub open spec fn naive_marks(ns: Seq<AnsiNode>, t: Seq<StyleNode>, n: int) -> Seq<Mark>
    decreases n,
{
    if n <= 0 {
        Seq::empty()
    } else {
        naive_marks(ns, t, n - 1) + node_marks(ns[n - 1], key_in(t, style_at(ns, n - 1)))
    }
}

/// The markup of one mark, after the marks `before`.
pub open spec fn mark_markup(before: Seq<Mark>, m: Mark, t: Seq<StyleNode>) -> Seq<char> {
    match m {
        Mark::Open(k) => if k < t.len() {
            open_tag(t[k as int])
        } else {
            Seq::empty()
        },
        Mark::Glyph(c) => seq![c],
        Mark::Close => match current_key(before) {
            Some(k) => if k < t.len() {
                close_tag(t[k as int])
            } else {
                Seq::empty()
            },
            None => Seq::empty(),
        },
    }
}

/// The markup of a style stream whose keys name entries of `t`.
pub open spec fn markup_of(ms: Seq<Mark>, t: Seq<StyleNode>) -> Seq<char>
    decreases ms.len(),
{
    if ms.len() == 0 {
        Seq::empty()
    } else {
        markup_of(ms.drop_last(), t) + mark_markup(ms.drop_last(), ms.last(), t)
    }
}

/// The markup of the nodes `ns`.
pub open spec fn rendered(ns: Seq<AnsiNode>) -> Seq<char> {
    let t = style_table(ns, ns.len() as int);
    markup_of(optimized(naive_marks(ns, t, ns.len() as int)), t)
}

/// The style each node is shown in: SGR control sequences fold into the
/// style from the plain one on, and every node carries the style in effect
/// after it.
pub fn resolve(nodes: &Vec<AnsiNode>) -> (r: Vec<StyleNode>)
    ensures
        r@.len() == nodes@.len(),
        forall|i: int| 0 <= i < r@.len() ==> r@[i] == style_at(nodes@, i),
{
    let mut styles: Vec<StyleNode> = Vec::new();
    let mut cur = StyleNode::default();
    let mut i: usize = 0;
    while i < nodes.len()
        invariant
            i <= nodes@.len(),
            styles@.len() == i,
            forall|j: int| 0 <= j < i ==> styles@[j] == style_at(nodes@, j),
            cur == style_after(nodes@.take(i as int)),
        decreases nodes@.len() - i,
    {
        proof {
            assert(nodes@.take(i as int + 1).drop_last() =~= nodes@.take(i as int));
        }
        match &nodes[i] {
            AnsiNode::Csi { params, code, .. } => {
                if *code == 'm' {
                    cur.apply_all(params.as_slice());
                }
            },
            _ => {},
        }
        styles.push(cur);
        i = i + 1;
    }
    styles
}

fn find_style(t: &Vec<StyleNode>, st: StyleNode) -> (r: Option<usize>)
    ensures
        r is Some <==> t@.contains(st),
        r matches Some(j) ==> j < t@.len() && t@[j as int] == st,
{
    let mut j: usize = 0;
    while j < t.len()
        invariant
            j <= t@.len(),
            forall|k: int| 0 <= k < j ==> t@[k] != st,
        decreases t@.len() - j,
    {
        if t[j] == st {
            return Some(j);
        }
        j = j + 1;
    }
    None
}

proof fn lemma_table_distinct(ns: Seq<AnsiNode>, n: int)
    ensures
        forall|a: int, b: int|
            0 <= a < b < style_table(ns, n).len() ==> style_table(ns, n)[a] != style_table(
                ns,
                n,
            )[b],
        forall|a: int| 0 <= a < style_table(ns, n).len() ==> style_table(ns, n)[a] != plain_style(),
    decreases n,
{
    if n > 0 {
        lemma_table_distinct(ns, n - 1);
    }
}

/// The key of `st` in a table without repeats, from a position found there.
proof fn lemma_key_in(t: Seq<StyleNode>, st: StyleNode, j: int)
    requires
        forall|a: int, b: int| 0 <= a < b < t.len() ==> t[a] != t[b],
        0 <= j < t.len(),
        t[j] == st,
        st != plain_style(),
    ensures
        key_in(t, st) == Some(j as u64),
{
    assert(t.contains(st));
    let c = choose|k: int| 0 <= k < t.len() && t[k] == st;
    if c != j {
        if c < j {
            assert(t[c] != t[j]);
        } else {
            assert(t[j] != t[c]);
        }
    }
}

fn push_text_marks(out: &mut Vec<Mark>, s: &String)
    ensures
        final(out)@ == old(out)@ + glyphs(s@),
{
    let text = s.as_str();
    let n = text.unicode_len();
    let mut i: usize = 0;
    while i < n
        invariant
            n == s@.len(),
            text@ == s@,
            i <= n,
            out@ == old(out)@ + glyphs(s@.take(i as int)),
        decreases n - i,
    {
        out.push(Mark::Glyph(text.get_char(i)));
        i = i + 1;
        proof {
            assert(glyphs(s@.take(i as int)) =~= glyphs(s@.take(i - 1)).push(glyph(s@[i - 1])));
        }
    }
    proof {
        assert(s@.take(i as int) =~= s@);
    }
}

/// The style table of the nodes, and their style stream with one open and
/// close around every styled text.
pub fn style_marks(nodes: &Vec<AnsiNode>) -> (r: (Vec<Mark>, Vec<StyleNode>))
    ensures
        r.1@ == style_table(nodes@, nodes@.len() as int),
        r.0@ == naive_marks(nodes@, r.1@, nodes@.len() as int),
{
    let styles = resolve(nodes);
    let ghost ns = nodes@;
    let ghost full = style_table(ns, ns.len() as int);
    let mut table: Vec<StyleNode> = Vec::new();
    let mut i: usize = 0;
    while i < nodes.len()
        invariant
            ns == nodes@,
            styles@.len() == ns.len(),
            forall|j: int| 0 <= j < ns.len() ==> styles@[j] == style_at(ns, j),
            i <= ns.len(),
            table@ == style_table(ns, i as int),
        decreases ns.len() - i,
    {
        let st = styles[i];
        if let AnsiNode::Text(_) = &nodes[i] {
            if st != StyleNode::default() && find_style(&table, st).is_none() {
                table.push(st);
            }
        }
        i = i + 1;
    }
    proof {
        lemma_table_distinct(ns, ns.len() as int);
    }
    let mut marks: Vec<Mark> = Vec::new();
    let mut i: usize = 0;
    while i < nodes.len()
        invariant
            ns == nodes@,
            styles@.len() == ns.len(),
            forall|j: int| 0 <= j < ns.len() ==> styles@[j] == style_at(ns, j),
            table@ == full,
            full == style_table(ns, ns.len() as int),
            forall|a: int, b: int| 0 <= a < b < full.len() ==> full[a] != full[b],
            i <= ns.len(),
            marks@ == naive_marks(ns, full, i as int),
        decreases ns.len() - i,
    {
        let ghost before = marks@;
        if let AnsiNode::Text(s) = &nodes[i] {
            let st = styles[i];
            let key: Option<u64> = if st == StyleNode::default() {
                None
            } else {
                match find_style(&table, st) {
                    Some(j) => Some(j as u64),
                    None => None,
                }
            };
            proof {
                if let Some(j) = key {
                    lemma_key_in(full, st, j as int);
                } else if st != plain_style() {
                    assert(!full.contains(st));
                }
            }
            match key {
                Some(k) => {
                    marks.push(Mark::Open(k));
                    push_text_marks(&mut marks, s);
                    marks.push(Mark::Close);
                    assert(marks@ =~= before + (seq![Mark::Open(k)] + glyphs(s@) + seq![
                        Mark::Close,
                    ]));
                    assert(node_marks(ns[i as int], key) == seq![Mark::Open(k)] + glyphs(s@)
                        + seq![Mark::Close]);
                },
                None => {
                    push_text_marks(&mut marks, s);
                    assert(node_marks(ns[i as int], key) == glyphs(s@));
                },
            }
            proof {
                assert(key == key_in(full, style_at(ns, i as int)));
                assert(naive_marks(ns, full, i as int + 1) == before + node_marks(
                    ns[i as int],
                    key,
                ));
                assert(marks@ =~= naive_marks(ns, full, i as int + 1));
            }
        } else {
            proof {
                assert(marks@ =~= naive_marks(ns, full, i as int + 1));
            }
        }
        i = i + 1;
    }
    (marks, table)
}

/// Renders a style stream whose keys name entries of `table`: an open
/// becomes the style's opening tag, a close the matching closing tag.
pub fn serialize(marks: &Vec<Mark>, table: &Vec<StyleNode>) -> (html: String)
    ensures
        html@ == markup_of(marks@, table@),
{
    let mut html = String::new();
    let mut cur: Option<u64> = None;
    let mut i: usize = 0;
    while i < marks.len()
        invariant
            i <= marks@.len(),
            html@ == markup_of(marks@.take(i as int), table@),
            cur == current_key(marks@.take(i as int)),
        decreases marks@.len() - i,
    {
        let ghost before = html@;
        proof {
            assert(marks@.take(i as int + 1).drop_last() =~= marks@.take(i as int));
        }
        match marks[i] {
            Mark::Open(k) => {
                if k < table.len() as u64 {
                    let tag = table[k as usize].to_html();
                    html.append(tag.as_str());
                }
                cur = Some(k);
            },
            Mark::Glyph(c) => {
                push_char(&mut html, c);
            },
            Mark::Close => {
                if let Some(k) = cur {
                    if k < table.len() as u64 {
                        let tag = table[k as usize].close_html();
                        html.append(tag.as_str());
                    }
                }
                cur = None;
            },
        }
        proof {
            assert(html@ =~= before + mark_markup(marks@.take(i as int), marks@[i as int], table@));
        }
        i = i + 1;
    }
    proof {
        assert(marks@.take(i as int) =~= marks@);
    }
    html
}

/// Renders lexed nodes as markup.
pub fn render_nodes(nodes: &Vec<AnsiNode>) -> (html: String)
    ensures
        html@ == rendered(nodes@),
{
    let (marks, table) = style_marks(nodes);
    let runs = optimize(&marks);
    serialize(&runs, &table)
}

/// Converts terminal output to markup: lexes it, resolves the styles,
/// optimizes the style transitions and renders them. Never fails.
pub fn render(input: &[u8]) -> (html: String)
    ensures
        exists|ns: Seq<AnsiNode>|
            nodes_are(ns, lexemes(crlf_normalized(input@))) && html@ == rendered(ns),
{
    let nodes = TerminalOutputParser::parse_to_nodes(input);
    render_nodes(&nodes)
}

} // verus!
