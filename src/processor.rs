use vstd::prelude::*;
use vstd::string::StringExecFns;
use vstd::utf8::{
    encode_utf8_decode_utf8, encode_utf8_valid_utf8, is_char_boundary,
    is_char_boundary_iff_not_is_continuation_byte, is_char_boundary_start_end_of_seq, valid_utf8,
    valid_utf8_concat, valid_utf8_split,
};

use crate::config::bytes_of;

verus! {

#[verifier::external_type_specification]
#[verifier::external_body]
pub struct ExXmlError(roxmltree::Error);

#[verifier::external_type_specification]
#[verifier::external_body]
pub struct ExRegexError(regex::Error);

/// A region of the map to fill with a color.
pub struct MapHighlight {
    pub id: String,
    pub color: String,
}

/// One node of a parsed map document, in document order.
#[derive(Clone, Debug)]
pub struct MapNode {
    /// Byte offset in the document where the node's text begins.
    pub start: usize,
    /// Value of the node's `id` attribute.
    pub id: Option<String>,
    /// Value of the node's `data-name` attribute.
    pub data_name: Option<String>,
    /// Whether the node carries a `fill` attribute.
    pub has_fill: bool,
    /// Number of nodes in the subtree rooted here, the node itself included; they are
    /// this node and the ones that follow it.
    pub descendants: usize,
}

#[derive(Debug)]
pub enum ProcessorError {
    Xml(roxmltree::Error),
    Regex(regex::Error),
}

/// The nodes of a document as the XML parser reports them, or none where the text
/// is not well-formed XML.
pub uninterp spec fn map_nodes(text: Seq<char>) -> Option<Seq<MapNode>>;

/// The byte range of the first `fill` assignment in the text of a start tag.
pub uninterp spec fn fill_match(tag: Seq<u8>) -> Option<(usize, usize)>;

/// Relies on roxmltree's `Document::parse`, `descendants`, `range`, `attribute`
/// and `has_attribute`: the nodes of the document in document order.
#[verifier::external_body]
fn parse_nodes(text: &str) -> (r: Result<Vec<MapNode>, roxmltree::Error>)
    ensures
        r matches Ok(v) ==> map_nodes(text@) == Some(v@),
        r is Err ==> map_nodes(text@) is None,
{
    let doc = roxmltree::Document::parse(text)?;
    Ok(doc.descendants().map(|n| MapNode {
        start: n.range().start,
        id: n.attribute("id").map(String::from),
        data_name: n.attribute("data-name").map(String::from),
        has_fill: n.has_attribute("fill"),
        descendants: n.descendants().count(),
    }).collect())
}

/// Relies on regex's `Regex::new` and `Regex::find`: the first match of a `fill`
/// assignment with a double- or single-quoted value in `text[start..end]`, as byte
/// offsets into that slice, which end no later than it does. `Regex::new` fails only
/// on an invalid pattern or one over the size limit, and this fixed pattern is neither.
#[verifier::external_body]
fn find_fill(text: &str, start: usize, end: usize) -> (r: Result<Option<(usize, usize)>, regex::Error>)
    requires
        start <= end <= bytes_of(text@).len(),
        is_char_boundary(bytes_of(text@), start as int),
        is_char_boundary(bytes_of(text@), end as int),
    ensures
        r is Ok,
        r matches Ok(m) ==> m == fill_match(bytes_of(text@).subrange(start as int, end as int)),
        r matches Ok(Some(m)) ==> m.0 <= m.1 <= end - start,
{
    let re = regex::Regex::new(r#"fill\s*=\s*(?:"[^"]*"|'[^']*')"#)?;
    Ok(re.find(&text[start..end]).map(|m| (m.start(), m.end())))
}

/// Relies on `String::replace_range`: the bytes in `start..end` give way to `with`.
#[verifier::external_body]
fn replace_range(s: &mut String, start: usize, end: usize, with: &str)
    requires
        start <= end <= bytes_of(old(s)@).len(),
        is_char_boundary(bytes_of(old(s)@), start as int),
        is_char_boundary(bytes_of(old(s)@), end as int),
    ensures
        bytes_of(final(s)@) == bytes_of(old(s)@).subrange(0, start as int) + bytes_of(with@)
            + bytes_of(old(s)@).subrange(end as int, bytes_of(old(s)@).len() as int),
{
    s.replace_range(start..end, with);
}

/// A planned text substitution: bytes `start..end` are to become `text`.
pub struct Splice {
    pub start: int,
    pub end: int,
    pub text: Seq<char>,
}

struct Edit {
    start: usize,
    end: usize,
    text: String,
}

impl View for Edit {
    type V = Splice;

    closed spec fn view(&self) -> Splice {
        Splice { start: self.start as int, end: self.end as int, text: self.text@ }
    }
}

/// Whether node `n` is identified by `id`, through its `id` or its `data-name`.
pub open spec fn names_region(n: MapNode, id: Seq<char>) -> bool {
    (n.id matches Some(s) && s@ == id) || (n.data_name matches Some(s) && s@ == id)
}

/// The index of the first node at or after `i` that `id` identifies.
pub open spec fn region_from(nodes: Seq<MapNode>, id: Seq<char>, i: int) -> Option<int>
    decreases nodes.len() - i,
{
    if i < 0 || i >= nodes.len() {
        None
    } else if names_region(nodes[i], id) {
        Some(i)
    } else {
        region_from(nodes, id, i + 1)
    }
}

/// One past the last node of the subtree rooted at node `g`, kept within the nodes.
pub open spec fn subtree_end(nodes: Seq<MapNode>, g: int) -> int {
    if nodes[g].descendants <= nodes.len() - g {
        g + nodes[g].descendants
    } else {
        nodes.len() as int
    }
}

/// The assignment that sets the fill to `color`.
pub open spec fn fill_text(color: Seq<char>) -> Seq<char> {
    "fill=\""@ + color + "\""@
}

/// The substitution planned for node `k`, if it carries a fill whose span is known.
pub open spec fn node_splice(
    nodes: Seq<MapNode>,
    spans: Seq<Option<(usize, usize)>>,
    color: Seq<char>,
    k: int,
) -> Seq<Splice> {
    if nodes[k].has_fill && k < spans.len() && spans[k] is Some {
        seq![
            Splice {
                start: spans[k].unwrap().0 as int,
                end: spans[k].unwrap().1 as int,
                text: fill_text(color),
            },
        ]
    } else {
        seq![]
    }
}

/// The substitutions planned for nodes `g..k`, in document order.
pub open spec fn splices_upto(
    nodes: Seq<MapNode>,
    spans: Seq<Option<(usize, usize)>>,
    color: Seq<char>,
    g: int,
    k: int,
) -> Seq<Splice>
    decreases k - g,
{
    if k <= g {
        seq![]
    } else {
        splices_upto(nodes, spans, color, g, k - 1) + node_splice(nodes, spans, color, k - 1)
    }
}

/// The substitutions that one highlight asks for: one for each fill-bearing node of
/// the subtree of the first node that its id identifies; none if no node does.
pub open spec fn highlight_splices(
    nodes: Seq<MapNode>,
    spans: Seq<Option<(usize, usize)>>,
    h: MapHighlight,
) -> Seq<Splice> {
    match region_from(nodes, h.id@, 0) {
        Some(g) => splices_upto(nodes, spans, h.color@, g, subtree_end(nodes, g)),
        None => seq![],
    }
}

/// The substitutions of all highlights, in order.
pub open spec fn all_splices(
    nodes: Seq<MapNode>,
    spans: Seq<Option<(usize, usize)>>,
    hs: Seq<MapHighlight>,
) -> Seq<Splice>
    decreases hs.len(),
{
    if hs.len() == 0 {
        seq![]
    } else {
        all_splices(nodes, spans, hs.drop_last()) + highlight_splices(nodes, spans, hs.last())
    }
}

/// The first position at or after `i` whose start is not above `s`.
pub open spec fn insert_pos(acc: Seq<Splice>, s: int, i: int) -> int
    decreases acc.len() - i,
{
    if i < 0 || i >= acc.len() {
        acc.len() as int
    } else if acc[i].start <= s {
        i
    } else {
        insert_pos(acc, s, i + 1)
    }
}

/// Adds `e` to a list ordered by descending start, unless one with its start is
/// already there.
pub open spec fn insert_desc(acc: Seq<Splice>, e: Splice) -> Seq<Splice> {
    let p = insert_pos(acc, e.start, 0);
    if p < acc.len() && acc[p].start == e.start {
        acc
    } else {
        acc.insert(p, e)
    }
}

/// The substitutions that are carried out, by descending start: of those that share
/// a start, the first one planned.
pub open spec fn select(es: Seq<Splice>) -> Seq<Splice>
    decreases es.len(),
{
    if es.len() == 0 {
        seq![]
    } else {
        insert_desc(select(es.drop_last()), es.last())
    }
}

/// Whether substitution `e` fits the bytes `b`: in bounds and on character boundaries.
pub open spec fn fits(b: Seq<u8>, e: Splice) -> bool {
    &&& 0 <= e.start <= e.end <= b.len()
    &&& is_char_boundary(b, e.start)
    &&& is_char_boundary(b, e.end)
}

/// The bytes after carrying out the substitutions in order; one that does not fit
/// is passed over.
pub open spec fn apply_splices(b: Seq<u8>, es: Seq<Splice>) -> Seq<u8>
    decreases es.len(),
{
    if es.len() == 0 {
        b
    } else {
        let b1 = apply_splices(b, es.drop_last());
        let e = es.last();
        if fits(b1, e) {
            b1.subrange(0, e.start) + bytes_of(e.text) + b1.subrange(e.end, b1.len() as int)
        } else {
            b1
        }
    }
}

/// The patched document.
pub open spec fn patched(
    b: Seq<u8>,
    nodes: Seq<MapNode>,
    spans: Seq<Option<(usize, usize)>>,
    hs: Seq<MapHighlight>,
) -> Seq<u8> {
    apply_splices(b, select(all_splices(nodes, spans, hs)))
}

fn find_region(nodes: &Vec<MapNode>, id: &String) -> (r: Option<usize>)
    ensures
        r matches Some(g) ==> region_from(nodes@, id@, 0) == Some(g as int) && g < nodes@.len(),
        r is None ==> region_from(nodes@, id@, 0) is None,
{
    let mut i: usize = 0;
    while i < nodes.len()
        invariant
            i <= nodes@.len(),
            region_from(nodes@, id@, 0) == region_from(nodes@, id@, i as int),
        decreases nodes@.len() - i,
    {
        let n = &nodes[i];
        let by_id = match &n.id {
            Some(s) => s.eq(id),
            None => false,
        };
        let by_name = match &n.data_name {
            Some(s) => s.eq(id),
            None => false,
        };
        if by_id || by_name {
            return Some(i);
        }
        i = i + 1;
    }
    None
}

fn make_fill_text(color: &String) -> (r: String)
    ensures
        r@ == fill_text(color@),
{
    let mut t = String::from_str("fill=\"");
    t.append(color.as_str());
    t.append("\"");
    t
}

fn push_highlight(
    edits: &mut Vec<Edit>,
    nodes: &Vec<MapNode>,
    spans: &Vec<Option<(usize, usize)>>,
    h: &MapHighlight,
)
    ensures
        final(edits)@.map_values(|e: Edit| e@) == old(edits)@.map_values(|e: Edit| e@)
            + highlight_splices(nodes@, spans@, *h),
{
    let ghost before = edits@.map_values(|e: Edit| e@);
    let g = match find_region(nodes, &h.id) {
        Some(g) => g,
        None => {
            assert(before + seq![] =~= before);
            return;
        },
    };
    let end = if nodes[g].descendants <= nodes.len() - g {
        g + nodes[g].descendants
    } else {
        nodes.len()
    };
    let mut k: usize = g;
    while k < end
        invariant
            g <= k <= end,
            end == subtree_end(nodes@, g as int),
            end <= nodes@.len(),
            edits@.map_values(|e: Edit| e@) == before + splices_upto(
                nodes@,
                spans@,
                h.color@,
                g as int,
                k as int,
            ),
        decreases end - k,
    {
        let ghost mid = edits@.map_values(|e: Edit| e@);
        if nodes[k].has_fill && k < spans.len() {
            if let Some((a, b)) = spans[k] {
                edits.push(Edit { start: a, end: b, text: make_fill_text(&h.color) });
            }
        }
        assert(edits@.map_values(|e: Edit| e@) =~= mid + node_splice(
            nodes@,
            spans@,
            h.color@,
            k as int,
        ));
        k = k + 1;
    }
}

fn collect_edits(
    nodes: &Vec<MapNode>,
    spans: &Vec<Option<(usize, usize)>>,
    highlights: &Vec<MapHighlight>,
) -> (r: Vec<Edit>)
    ensures
        r@.map_values(|e: Edit| e@) == all_splices(nodes@, spans@, highlights@),
{
    let mut edits: Vec<Edit> = Vec::new();
    let mut i: usize = 0;
    while i < highlights.len()
        invariant
            i <= highlights@.len(),
            edits@.map_values(|e: Edit| e@) == all_splices(
                nodes@,
                spans@,
                highlights@.take(i as int),
            ),
        decreases highlights@.len() - i,
    {
        push_highlight(&mut edits, nodes, spans, &highlights[i]);
        assert(highlights@.take(i + 1).drop_last() =~= highlights@.take(i as int));
        i = i + 1;
    }
    assert(highlights@.take(highlights@.len() as int) =~= highlights@);
    edits
}

fn insert_edit(acc: &mut Vec<Edit>, e: Edit)
    ensures
        final(acc)@.map_values(|x: Edit| x@) == insert_desc(old(acc)@.map_values(|x: Edit| x@), e@),
{
    let ghost v = acc@.map_values(|x: Edit| x@);
    let mut p: usize = 0;
    while p < acc.len() && acc[p].start > e.start
        invariant
            v == acc@.map_values(|x: Edit| x@),
            p <= acc@.len(),
            insert_pos(v, e@.start, 0) == insert_pos(v, e@.start, p as int),
        decreases acc@.len() - p,
    {
        p = p + 1;
    }
    assert(insert_pos(v, e@.start, p as int) == p);
    if p < acc.len() && acc[p].start == e.start {
        return;
    }
    acc.insert(p, e);
    assert(acc@.map_values(|x: Edit| x@) =~= v.insert(p as int, e@));
}

fn select_edits(edits: Vec<Edit>) -> (r: Vec<Edit>)
    ensures
        r@.map_values(|e: Edit| e@) == select(edits@.map_values(|e: Edit| e@)),
{
    let ghost es = edits@.map_values(|e: Edit| e@);
    let mut acc: Vec<Edit> = Vec::new();
    let mut rest = edits;
    let ghost n = es.len();
    while rest.len() > 0
        invariant
            n == es.len(),
            rest@.len() <= n,
            rest@.map_values(|e: Edit| e@) == es.subrange(n - rest@.len(), n as int),
            acc@.map_values(|e: Edit| e@) == select(es.take(n - rest@.len())),
        decreases rest@.len(),
    {
        let ghost taken = n - rest@.len();
        let ghost before = rest@;
        let e = rest.remove(0);
        assert(e@ == before.map_values(|e: Edit| e@)[0]);
        assert forall|k: int| 0 <= k < rest@.len() implies rest@[k]@ == es[taken + 1 + k] by {
            assert(rest@[k] == before[k + 1]);
            assert(before.map_values(|e: Edit| e@)[k + 1] == es.subrange(taken, n as int)[k + 1]);
        }
        assert(rest@.map_values(|e: Edit| e@) =~= es.subrange(taken + 1, n as int));
        insert_edit(&mut acc, e);
        assert(es.take(taken + 1).drop_last() =~= es.take(taken));
    }
    assert(es.take(n as int) =~= es);
    acc
}

/// Writes the fill of every highlighted region into the document `text`.
///
/// `nodes` are the document's nodes in document order and `spans[k]` the byte range
/// of node `k`'s `fill` assignment. Each highlight patches the subtree of the first
/// node that its id identifies; substitutions that share a start are made once, and
/// one that does not fit the text is passed over. All other bytes stay as they are.
pub fn patch_document(
    text: &str,
    nodes: &Vec<MapNode>,
    spans: &Vec<Option<(usize, usize)>>,
    highlights: &Vec<MapHighlight>,
) -> (r: String)
    ensures
        bytes_of(r@) == patched(bytes_of(text@), nodes@, spans@, highlights@),
{
    let edits = select_edits(collect_edits(nodes, spans, highlights));
    let ghost es = edits@.map_values(|e: Edit| e@);
    let mut out = text.to_owned();
    let mut i: usize = 0;
    while i < edits.len()
        invariant
            es == edits@.map_values(|e: Edit| e@),
            i <= edits@.len(),
            bytes_of(out@) == apply_splices(bytes_of(text@), es.take(i as int)),
        decreases edits@.len() - i,
    {
        let e = &edits[i];
        assert(es.take(i + 1).drop_last() =~= es.take(i as int));
        assert(e@ == es.take(i + 1).last());
        let s = out.as_str();
        if e.start <= e.end && e.end <= s.as_bytes().len() && s.is_char_boundary(e.start)
            && s.is_char_boundary(e.end) {
            replace_range(&mut out, e.start, e.end, e.text.as_str());
        }
        i = i + 1;
    }
    assert(es.take(es.len() as int) =~= es);
    out
}

/// The position of the first `>` at or after `i`.
pub open spec fn tag_close_from(b: Seq<u8>, i: int) -> Option<int>
    decreases b.len() - i,
{
    if i < 0 || i >= b.len() {
        None
    } else if b[i] == 62u8 {
        Some(i)
    } else {
        tag_close_from(b, i + 1)
    }
}

/// The byte range of the `fill` assignment in the start tag of node `n`: the tag runs
/// from the node's start through the next `>`.
pub open spec fn node_fill_span(b: Seq<u8>, n: MapNode) -> Option<(usize, usize)> {
    if n.has_fill && n.start <= b.len() && is_char_boundary(b, n.start as int) {
        match tag_close_from(b, n.start as int) {
            Some(k) => if is_char_boundary(b, k + 1) {
                match fill_match(b.subrange(n.start as int, k + 1)) {
                    Some(m) => Some(((n.start + m.0) as usize, (n.start + m.1) as usize)),
                    None => None,
                }
            } else {
                None
            },
            None => None,
        }
    } else {
        None
    }
}

/// The fill spans of all nodes.
pub open spec fn fill_spans_of(b: Seq<u8>, nodes: Seq<MapNode>) -> Seq<Option<(usize, usize)>> {
    nodes.map_values(|n: MapNode| node_fill_span(b, n))
}

fn find_tag_close(b: &[u8], from: usize) -> (r: Option<usize>)
    ensures
        r matches Some(k) ==> tag_close_from(b@, from as int) == Some(k as int) && from <= k < b@.len(),
        r is None ==> tag_close_from(b@, from as int) is None,
{
    let mut i: usize = from;
    while i < b.len()
        invariant
            from <= i,
            tag_close_from(b@, from as int) == tag_close_from(b@, i as int),
        decreases b@.len() - i,
    {
        if b[i] == 62u8 {
            return Some(i);
        }
        i = i + 1;
    }
    None
}

/// Finds the `fill` assignment in the start tag of each node.
pub fn fill_spans(text: &str, nodes: &Vec<MapNode>) -> (r: Result<
    Vec<Option<(usize, usize)>>,
    regex::Error,
>)
    ensures
        r is Ok,
        r matches Ok(v) ==> v@ == fill_spans_of(bytes_of(text@), nodes@),
{
    let ghost b = bytes_of(text@);
    let bytes = text.as_bytes();
    let mut spans: Vec<Option<(usize, usize)>> = Vec::new();
    let mut i: usize = 0;
    while i < nodes.len()
        invariant
            bytes@ == b,
            b == bytes_of(text@),
            i <= nodes@.len(),
            spans@ =~= fill_spans_of(b, nodes@.take(i as int)),
        decreases nodes@.len() - i,
    {
        let n = &nodes[i];
        let mut span: Option<(usize, usize)> = None;
        if n.has_fill && n.start <= bytes.len() && text.is_char_boundary(n.start) {
            if let Some(k) = find_tag_close(bytes, n.start) {
                if text.is_char_boundary(k + 1) {
                    match find_fill(text, n.start, k + 1) {
                        Ok(Some((a, e))) => {
                            span = Some((n.start + a, n.start + e));
                        },
                        Ok(None) => {},
                        Err(err) => {
                            return Err(err);
                        },
                    }
                }
            }
        }
        assert(span == node_fill_span(b, *n));
        spans.push(span);
        assert(fill_spans_of(b, nodes@.take(i + 1)) =~= fill_spans_of(b, nodes@.take(i as int))
            .push(node_fill_span(b, nodes@[i as int])));
        i = i + 1;
    }
    assert(nodes@.take(nodes@.len() as int) =~= nodes@);
    Ok(spans)
}

/// Parses the map document `content` and writes the fill of every highlighted region
/// into it (see `patch_document`). Fails exactly where the document is not well-formed
/// XML.
pub fn process_map(content: &str, highlights: &Vec<MapHighlight>) -> (r: Result<
    String,
    ProcessorError,
>)
    ensures
        r matches Err(ProcessorError::Xml(_)) <==> map_nodes(content@) is None,
        map_nodes(content@) is Some ==> r is Ok,
        r matches Ok(out) ==> map_nodes(content@) matches Some(ns) && bytes_of(out@) == patched(
            bytes_of(content@),
            ns,
            fill_spans_of(bytes_of(content@), ns),
            highlights@,
        ),
{
    let nodes = match parse_nodes(content) {
        Ok(nodes) => nodes,
        Err(e) => {
            return Err(ProcessorError::Xml(e));
        },
    };
    let spans = match fill_spans(content, &nodes) {
        Ok(spans) => spans,
        Err(e) => {
            return Err(ProcessorError::Regex(e));
        },
    };
    Ok(patch_document(content, &nodes, &spans, highlights))
}

/// With no highlights the document comes back byte for byte, and so as the same text.
pub proof fn lemma_patch_without_highlights(
    text: Seq<char>,
    nodes: Seq<MapNode>,
    spans: Seq<Option<(usize, usize)>>,
    out: Seq<char>,
)
    requires
        bytes_of(out) == patched(bytes_of(text), nodes, spans, seq![]),
    ensures
        patched(bytes_of(text), nodes, spans, seq![]) == bytes_of(text),
        out == text,
{
    assert(select(Seq::<Splice>::empty()) == Seq::<Splice>::empty());
    encode_utf8_decode_utf8(out);
    encode_utf8_decode_utf8(text);
}

proof fn lemma_select_single(e: Splice)
    ensures
        select(seq![e]) == seq![e],
{
    assert(seq![e].drop_last() =~= Seq::<Splice>::empty());
    assert(select(Seq::<Splice>::empty()) == Seq::<Splice>::empty());
    assert(insert_pos(Seq::<Splice>::empty(), e.start, 0) == 0);
    assert(Seq::<Splice>::empty().insert(0, e) =~= seq![e]);
}

proof fn lemma_insert_pos(acc: Seq<Splice>, s: int, i: int)
    requires
        0 <= i <= acc.len(),
    ensures
        i <= insert_pos(acc, s, i) <= acc.len(),
        forall|k: int| i <= k < insert_pos(acc, s, i) ==> acc[k].start > s,
        insert_pos(acc, s, i) < acc.len() ==> acc[insert_pos(acc, s, i)].start <= s,
    decreases acc.len() - i,
{
    if i < acc.len() && acc[i].start > s {
        lemma_insert_pos(acc, s, i + 1);
    }
}

/// The substitutions carried out have strictly descending starts: no two share a start,
/// and each is made before those that lie earlier in the text.
pub proof fn lemma_select_strictly_descending(es: Seq<Splice>)
    ensures
        forall|i: int, j: int|
            0 <= i < j < select(es).len() ==> select(es)[i].start > select(es)[j].start,
    decreases es.len(),
{
    if es.len() > 0 {
        let acc = select(es.drop_last());
        lemma_select_strictly_descending(es.drop_last());
        let e = es.last();
        lemma_insert_pos(acc, e.start, 0);
        let p = insert_pos(acc, e.start, 0);
        if !(p < acc.len() && acc[p].start == e.start) {
            let r = acc.insert(p, e);
            assert forall|i: int, j: int| 0 <= i < j < r.len() implies r[i].start > r[j].start by {
                if j < p {
                } else if j == p {
                } else if i < p {
                    assert(acc[i].start > e.start);
                    assert(acc[p].start <= e.start);
                    assert(r[j] == acc[j - 1]);
                } else if i == p {
                    assert(r[j] == acc[j - 1]);
                    if j - 1 > p {
                        assert(acc[p].start > acc[j - 1].start);
                    }
                } else {
                    assert(r[i] == acc[i - 1] && r[j] == acc[j - 1]);
                }
            }
        }
    }
}

/// Whether some substitution of `es` starts at `s`.
pub open spec fn has_start(es: Seq<Splice>, s: int) -> bool {
    exists|k: int| 0 <= k < es.len() && #[trigger] es[k].start == s
}

/// Every start that a planned substitution has is the start of one carried out.
pub proof fn lemma_select_covers(es: Seq<Splice>)
    ensures
        forall|i: int| 0 <= i < es.len() ==> has_start(select(es), #[trigger] es[i].start),
    decreases es.len(),
{
    if es.len() > 0 {
        let prev = es.drop_last();
        let n = prev.len() as int;
        let acc = select(prev);
        let e = es.last();
        let sel = select(es);
        lemma_select_covers(prev);
        lemma_insert_pos(acc, e.start, 0);
        let p = insert_pos(acc, e.start, 0);
        assert forall|i: int| 0 <= i < es.len() implies has_start(sel, #[trigger] es[i].start) by {
            if i < n {
                assert(es[i] == prev[i]);
                assert(has_start(acc, prev[i].start));
                let a = choose|a: int| 0 <= a < acc.len() && #[trigger] acc[a].start == prev[i].start;
                if p < acc.len() && acc[p].start == e.start {
                    assert(sel[a].start == es[i].start);
                } else {
                    let k = if a < p { a } else { a + 1 };
                    assert(sel[k] == acc[a]);
                }
            } else {
                assert(sel[p].start == e.start);
            }
        }
    }
}

proof fn lemma_insert_desc_present(acc: Seq<Splice>, e: Splice)
    requires
        forall|i: int, j: int| 0 <= i < j < acc.len() ==> acc[i].start > acc[j].start,
        has_start(acc, e.start),
    ensures
        insert_desc(acc, e) == acc,
{
    lemma_insert_pos(acc, e.start, 0);
    let p = insert_pos(acc, e.start, 0);
    let k = choose|k: int| 0 <= k < acc.len() && #[trigger] acc[k].start == e.start;
    if k > p {
        assert(acc[p].start > acc[k].start);
    }
}

/// Whether `es[i]` is the first substitution of `es` with its start.
pub open spec fn first_with_start(es: Seq<Splice>, i: int) -> bool {
    &&& 0 <= i < es.len()
    &&& forall|j: int| 0 <= j < i ==> es[j].start != es[i].start
}

/// Whether `x` is the first substitution of `es` with its start.
pub open spec fn is_first_of(es: Seq<Splice>, x: Splice) -> bool {
    exists|i: int| first_with_start(es, i) && #[trigger] es[i] == x
}

proof fn lemma_first_lift(prev: Seq<Splice>, e: Splice, x: Splice)
    requires
        is_first_of(prev, x),
    ensures
        is_first_of(prev.push(e), x),
{
    let es = prev.push(e);
    let i = choose|i: int| first_with_start(prev, i) && #[trigger] prev[i] == x;
    assert(es[i] == prev[i]);
    assert forall|j: int| 0 <= j < i implies es[j].start != es[i].start by {
        assert(es[j] == prev[j]);
    }
}

proof fn lemma_first_new(prev: Seq<Splice>, e: Splice)
    requires
        !has_start(select(prev), e.start),
    ensures
        is_first_of(prev.push(e), e),
{
    let es = prev.push(e);
    let n = prev.len() as int;
    lemma_select_covers(prev);
    assert forall|j: int| 0 <= j < n implies es[j].start != es[n].start by {
        assert(es[j] == prev[j]);
        assert(has_start(select(prev), prev[j].start));
    }
    assert(es[n] == e);
}

/// Each substitution carried out is the first planned one with its start.
pub proof fn lemma_select_firsts(es: Seq<Splice>)
    ensures
        forall|k: int| 0 <= k < select(es).len() ==> is_first_of(es, #[trigger] select(es)[k]),
    decreases es.len(),
{
    if es.len() > 0 {
        let prev = es.drop_last();
        let acc = select(prev);
        let e = es.last();
        let sel = select(es);
        assert(es =~= prev.push(e));
        lemma_select_firsts(prev);
        lemma_select_strictly_descending(prev);
        lemma_insert_pos(acc, e.start, 0);
        let p = insert_pos(acc, e.start, 0);
        if p < acc.len() && acc[p].start == e.start {
            assert forall|k: int| 0 <= k < sel.len() implies is_first_of(es, #[trigger] sel[k]) by {
                lemma_first_lift(prev, e, acc[k]);
            }
        } else {
            assert forall|a: int| 0 <= a < acc.len() implies #[trigger] acc[a].start != e.start by {
                if a > p {
                    assert(acc[p].start > acc[a].start);
                }
            }
            lemma_first_new(prev, e);
            assert forall|k: int| 0 <= k < sel.len() implies is_first_of(es, #[trigger] sel[k]) by {
                if k < p {
                    assert(sel[k] == acc[k]);
                    lemma_first_lift(prev, e, acc[k]);
                } else if k > p {
                    assert(sel[k] == acc[k - 1]);
                    lemma_first_lift(prev, e, acc[k - 1]);
                } else {
                    assert(sel[k] == e);
                }
            }
        }
    }
}

/// Substitutions planned after others, each starting where an earlier one does, change
/// nothing in what is carried out.
pub proof fn lemma_select_repeated_starts(es1: Seq<Splice>, es2: Seq<Splice>)
    requires
        forall|i: int| 0 <= i < es2.len() ==> has_start(es1, #[trigger] es2[i].start),
    ensures
        select(es1 + es2) == select(es1),
    decreases es2.len(),
{
    if es2.len() == 0 {
        assert(es1 + es2 =~= es1);
    } else {
        let rest = es2.drop_last();
        assert forall|i: int| 0 <= i < rest.len() implies has_start(es1, #[trigger] rest[i].start) by {
            assert(rest[i] == es2[i]);
        }
        lemma_select_repeated_starts(es1, rest);
        assert((es1 + es2).drop_last() =~= es1 + rest);
        let e = es2.last();
        assert((es1 + es2).last() == e);
        assert(has_start(es1, es2[es2.len() - 1].start));
        let i = choose|i: int| 0 <= i < es1.len() && #[trigger] es1[i].start == e.start;
        lemma_select_covers(es1);
        assert(has_start(select(es1), es1[i].start));
        lemma_select_strictly_descending(es1);
        lemma_insert_desc_present(select(es1), e);
    }
}

/// A second highlight all of whose substitutions start where substitutions of the first
/// do leaves the document as the first highlight alone does.
pub proof fn lemma_highlight_with_repeated_starts(
    b: Seq<u8>,
    nodes: Seq<MapNode>,
    spans: Seq<Option<(usize, usize)>>,
    h1: MapHighlight,
    h2: MapHighlight,
)
    requires
        forall|i: int|
            0 <= i < highlight_splices(nodes, spans, h2).len() ==> has_start(
                highlight_splices(nodes, spans, h1),
                #[trigger] highlight_splices(nodes, spans, h2)[i].start,
            ),
    ensures
        patched(b, nodes, spans, seq![h1, h2]) == patched(b, nodes, spans, seq![h1]),
{
    let es1 = highlight_splices(nodes, spans, h1);
    let es2 = highlight_splices(nodes, spans, h2);
    assert(seq![h1, h2].drop_last() =~= seq![h1]);
    assert(seq![h1].drop_last() =~= Seq::<MapHighlight>::empty());
    assert(all_splices(nodes, spans, Seq::<MapHighlight>::empty()) == Seq::<Splice>::empty());
    assert(all_splices(nodes, spans, seq![h1]) =~= es1);
    assert(all_splices(nodes, spans, seq![h1, h2]) =~= es1 + es2);
    lemma_select_repeated_starts(es1, es2);
}

/// Of two substitutions that start at the same offset only the first is carried out.
pub proof fn lemma_same_start_made_once(e1: Splice, e2: Splice)
    requires
        e1.start == e2.start,
    ensures
        select(seq![e1, e2]) == seq![e1],
{
    assert(seq![e1, e2].drop_last() =~= seq![e1]);
    lemma_select_single(e1);
    assert(insert_pos(seq![e1], e2.start, 0) == 0);
}

proof fn lemma_splices_text(
    nodes: Seq<MapNode>,
    spans: Seq<Option<(usize, usize)>>,
    color: Seq<char>,
    g: int,
    k: int,
)
    ensures
        forall|i: int|
            0 <= i < splices_upto(nodes, spans, color, g, k).len() ==> #[trigger] splices_upto(
                nodes,
                spans,
                color,
                g,
                k,
            )[i].text == fill_text(color),
    decreases k - g,
{
    if k > g {
        lemma_splices_text(nodes, spans, color, g, k - 1);
        let prev = splices_upto(nodes, spans, color, g, k - 1);
        let last = node_splice(nodes, spans, color, k - 1);
        let all = splices_upto(nodes, spans, color, g, k);
        assert(all == prev + last);
        assert forall|i: int| 0 <= i < all.len() implies #[trigger] all[i].text == fill_text(
            color,
        ) by {
            if i < prev.len() {
                assert(all[i] == prev[i]);
            } else {
                assert(all[i] == last[i - prev.len()]);
            }
        }
    }
}

/// Two highlights that each ask for one substitution, both starting at the same
/// offset, patch the document as the first one alone does.
pub proof fn lemma_two_highlights_same_start(
    b: Seq<u8>,
    nodes: Seq<MapNode>,
    spans: Seq<Option<(usize, usize)>>,
    h1: MapHighlight,
    h2: MapHighlight,
)
    requires
        highlight_splices(nodes, spans, h1).len() == 1,
        highlight_splices(nodes, spans, h2).len() == 1,
        highlight_splices(nodes, spans, h1)[0].start == highlight_splices(nodes, spans, h2)[0].start,
    ensures
        patched(b, nodes, spans, seq![h1, h2]) == patched(b, nodes, spans, seq![h1]),
{
    let e1 = highlight_splices(nodes, spans, h1)[0];
    let e2 = highlight_splices(nodes, spans, h2)[0];
    assert(highlight_splices(nodes, spans, h1) =~= seq![e1]);
    assert(highlight_splices(nodes, spans, h2) =~= seq![e2]);
    assert(seq![h1, h2].drop_last() =~= seq![h1]);
    assert(seq![h1].drop_last() =~= Seq::<MapHighlight>::empty());
    assert(all_splices(nodes, spans, Seq::<MapHighlight>::empty()) == Seq::<Splice>::empty());
    assert(all_splices(nodes, spans, seq![h1]) =~= seq![e1]);
    assert(all_splices(nodes, spans, seq![h1, h2]) =~= seq![e1, e2]);
    lemma_same_start_made_once(e1, e2);
    lemma_select_single(e1);
}

/// The bytes `b` with substitution `e` carried out.
pub open spec fn splice_bytes(b: Seq<u8>, e: Splice) -> Seq<u8> {
    b.subrange(0, e.start) + bytes_of(e.text) + b.subrange(e.end, b.len() as int)
}

proof fn lemma_boundary_before_splice(b: Seq<u8>, e: Splice, i: int)
    requires
        valid_utf8(b),
        fits(b, e),
        0 <= i <= e.start,
        is_char_boundary(b, i),
    ensures
        valid_utf8(splice_bytes(b, e)),
        is_char_boundary(splice_bytes(b, e), i),
{
    let pre = b.subrange(0, e.start);
    let mid = bytes_of(e.text);
    let post = b.subrange(e.end, b.len() as int);
    let c = splice_bytes(b, e);
    valid_utf8_split(b, e.start);
    valid_utf8_split(b, e.end);
    encode_utf8_valid_utf8(e.text);
    valid_utf8_concat(pre, mid);
    valid_utf8_concat(pre + mid, post);
    valid_utf8_concat(mid, post);
    is_char_boundary_start_end_of_seq(c);
    if i == c.len() {
    } else if i < e.start {
        assert(c[i] == b[i]);
        is_char_boundary_iff_not_is_continuation_byte(b, i);
        is_char_boundary_iff_not_is_continuation_byte(c, i);
    } else {
        let rest = c.subrange(e.start, c.len() as int);
        assert(rest =~= mid + post);
        assert(is_char_boundary(rest, 0));
        is_char_boundary_iff_not_is_continuation_byte(rest, 0);
        assert(c[i] == rest[0]);
        is_char_boundary_iff_not_is_continuation_byte(c, i);
    }
}

/// One highlight whose region holds two fill-bearing nodes sets both fill assignments
/// to its color, and every other byte of the document stays as it was.
pub proof fn lemma_one_highlight_two_fills(
    text: Seq<char>,
    nodes: Seq<MapNode>,
    spans: Seq<Option<(usize, usize)>>,
    h: MapHighlight,
)
    requires
        highlight_splices(nodes, spans, h).len() == 2,
        highlight_splices(nodes, spans, h)[0].start < highlight_splices(nodes, spans, h)[1].start,
        highlight_splices(nodes, spans, h)[0].end <= highlight_splices(nodes, spans, h)[1].start,
        fits(bytes_of(text), highlight_splices(nodes, spans, h)[0]),
        fits(bytes_of(text), highlight_splices(nodes, spans, h)[1]),
    ensures
        ({
            let b = bytes_of(text);
            let es = highlight_splices(nodes, spans, h);
            patched(b, nodes, spans, seq![h]) == b.subrange(0, es[0].start) + bytes_of(
                fill_text(h.color@),
            ) + b.subrange(es[0].end, es[1].start) + bytes_of(fill_text(h.color@)) + b.subrange(
                es[1].end,
                b.len() as int,
            )
        }),
{
    let b = bytes_of(text);
    let es = highlight_splices(nodes, spans, h);
    let e1 = es[0];
    let e2 = es[1];
    assert(seq![h].drop_last() =~= Seq::<MapHighlight>::empty());
    assert(all_splices(nodes, spans, Seq::<MapHighlight>::empty()) == Seq::<Splice>::empty());
    assert(seq![h].last() == h);
    assert(all_splices(nodes, spans, seq![h]) =~= es);
    match region_from(nodes, h.id@, 0) {
        Some(g) => lemma_splices_text(nodes, spans, h.color@, g, subtree_end(nodes, g)),
        None => {},
    }
    assert(e1.text == fill_text(h.color@));
    assert(e2.text == fill_text(h.color@));
    assert(es.drop_last() =~= seq![e1]);
    lemma_select_single(e1);
    assert(insert_pos(seq![e1], e2.start, 0) == 0);
    assert(select(es) =~= seq![e2, e1]);
    let order = seq![e2, e1];
    assert(order.drop_last() =~= seq![e2]);
    assert(seq![e2].drop_last() =~= Seq::<Splice>::empty());
    assert(apply_splices(b, Seq::<Splice>::empty()) == b);
    assert(seq![e2].last() == e2);
    assert(apply_splices(b, seq![e2]) == splice_bytes(b, e2));
    let c = splice_bytes(b, e2);
    encode_utf8_valid_utf8(text);
    lemma_boundary_before_splice(b, e2, e1.start);
    lemma_boundary_before_splice(b, e2, e1.end);
    assert(fits(c, e1));
    assert(apply_splices(b, order) == splice_bytes(c, e1));
    assert(c.subrange(0, e1.start) =~= b.subrange(0, e1.start));
    assert(c.subrange(e1.end, c.len() as int) =~= b.subrange(e1.end, e2.start) + bytes_of(e2.text)
        + b.subrange(e2.end, b.len() as int));
    assert(splice_bytes(c, e1) =~= b.subrange(0, e1.start) + bytes_of(fill_text(h.color@))
        + b.subrange(e1.end, e2.start) + bytes_of(fill_text(h.color@)) + b.subrange(
        e2.end,
        b.len() as int,
    ));
}

} // verus!
