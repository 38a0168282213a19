//! Deterministic rendering of a resolution graph in the pinned-requirements
//! text format.
//!
//! Editable entries render first, as `-e <source>`; all other entries render
//! by their verbatim requirement text, sorted by package name, with optional
//! hash continuation lines and optional dependent annotations in one of two
//! styles. The output is a pure function of the graph and the options,
//! stated by `render_spec`.

use vstd::prelude::*;
use crate::dist::{dists_view, DistView, spec_verbatim};
use crate::graph_store::{graph_edges, graph_node, graph_node_count, graph_nodes,
    graph_incoming_sources, incoming_sources_spec, lemma_incoming_bounds, DistGraph, GraphEdge};
use crate::lex::{bytes_eq, bytes_le, bytes_view, contains_bytes, copy_bytes, lex_le, lex_lt,
    lemma_lex_le_antisymm, lemma_lex_le_total, lemma_lex_le_trans, lit_bytes, push_bytes,
    push_lit, slice_contains, sort_bytes, sort_bytes_seq};
use crate::resolution::hashes_find;
use crate::resolution::{hashes_view, HashEntry, HashEntryView, ResolutionGraph};
use crate::tables::{editables_find, EditableEntryView};

verus! {

/// The style of the annotation comments that name the dependents which
/// requested each package.
#[derive(Debug, Clone, Copy, PartialEq, Eq, Structural)]
pub enum AnnotationStyle {
    /// All dependents on a single, comma-separated trailing line.
    Line,
    /// Each dependent on a line of its own.
    Split,
}

impl Default for AnnotationStyle {
    /// The split style is the default.
    fn default() -> (r: Self)
        ensures
            r == AnnotationStyle::Split,
    {
        AnnotationStyle::Split
    }
}

/// One entry chosen for rendering: the node position, whether it renders as
/// an editable, its sort key, and its package name.
pub struct RenderNode {
    pub idx: usize,
    pub editable: bool,
    pub key: Vec<u8>,
    pub name: Vec<u8>,
}

/// The mathematical content of a `RenderNode`.
#[verifier::ext_equal]
pub ghost struct RenderNodeView {
    pub idx: usize,
    pub editable: bool,
    pub key: Seq<u8>,
    pub name: Seq<u8>,
}

impl View for RenderNode {
    type V = RenderNodeView;

    open spec fn view(&self) -> RenderNodeView {
        RenderNodeView {
            idx: self.idx,
            editable: self.editable,
            key: self.key@,
            name: self.name@,
        }
    }
}

impl RenderNode {
    /// A copy with the same content.
    fn duplicate(&self) -> (r: RenderNode)
        ensures
            r@ == self@,
    {
        RenderNode {
            idx: self.idx,
            editable: self.editable,
            key: copy_bytes(&self.key),
            name: copy_bytes(&self.name),
        }
    }
}

/// The views of a sequence of render entries.
pub open spec fn rns_view(s: Seq<RenderNode>) -> Seq<RenderNodeView> {
    s.map_values(|r: RenderNode| r@)
}

/// The entry rendering node `i`: an editable entry when the editable
/// registry knows its name, sorted by the editable's verbatim source; else a
/// distribution entry sorted by package name.
pub open spec fn entry_of(nodes: Seq<DistView>, eds: Seq<EditableEntryView>, i: int)
    -> RenderNodeView {
    match editables_find(eds, nodes[i].name) {
        Some(e) => RenderNodeView {
            idx: i as usize,
            editable: true,
            key: e.verbatim,
            name: nodes[i].name,
        },
        None => RenderNodeView {
            idx: i as usize,
            editable: false,
            key: nodes[i].name,
            name: nodes[i].name,
        },
    }
}

/// The render entries of the nodes from position `i` on, skipping excluded
/// package names.
pub open spec fn collect_from(
    nodes: Seq<DistView>,
    eds: Seq<EditableEntryView>,
    no_emit: Seq<Seq<u8>>,
    i: int,
) -> Seq<RenderNodeView>
    decreases nodes.len() - i,
{
    if i < 0 || i >= nodes.len() {
        Seq::empty()
    } else {
        let rest = collect_from(nodes, eds, no_emit, i + 1);
        if contains_bytes(no_emit, nodes[i].name) {
            rest
        } else {
            seq![entry_of(nodes, eds, i)] + rest
        }
    }
}

/// The render order: editable entries strictly before distribution entries;
/// within each group by sort key, byte-wise; equal keys by node position.
pub open spec fn node_le_spec(a: RenderNodeView, b: RenderNodeView) -> bool {
    if a.editable != b.editable {
        a.editable
    } else if a.key == b.key {
        a.idx <= b.idx
    } else {
        lex_lt(a.key, b.key)
    }
}

/// The order is total.
pub proof fn lemma_node_le_total(a: RenderNodeView, b: RenderNodeView)
    ensures
        node_le_spec(a, b) || node_le_spec(b, a),
{
    if a.editable == b.editable && a.key != b.key {
        lemma_lex_le_total(a.key, b.key);
        if lex_le(a.key, b.key) && lex_le(b.key, a.key) {
            lemma_lex_le_antisymm(a.key, b.key);
        }
    }
}

/// The order is transitive.
pub proof fn lemma_node_le_trans(a: RenderNodeView, b: RenderNodeView, c: RenderNodeView)
    requires
        node_le_spec(a, b),
        node_le_spec(b, c),
    ensures
        node_le_spec(a, c),
{
    if a.editable == b.editable && b.editable == c.editable {
        if a.key == b.key || b.key == c.key {
        } else if a.key == c.key {
            lemma_lex_le_antisymm(a.key, b.key);
        } else {
            lemma_lex_le_trans(a.key, b.key, c.key);
        }
    }
}

/// Insertion of an entry into a sorted sequence, before the first entry it
/// is at most equal to.
pub open spec fn insert_node_spec(s: Seq<RenderNodeView>, x: RenderNodeView)
    -> Seq<RenderNodeView>
    decreases s.len(),
{
    if s.len() == 0 {
        seq![x]
    } else if node_le_spec(x, s[0]) {
        seq![x] + s
    } else {
        seq![s[0]] + insert_node_spec(s.skip(1), x)
    }
}

/// Insertion sort of render entries.
pub open spec fn sort_nodes_spec(s: Seq<RenderNodeView>) -> Seq<RenderNodeView>
    decreases s.len(),
{
    if s.len() == 0 {
        s
    } else {
        insert_node_spec(sort_nodes_spec(s.drop_last()), s.last())
    }
}

/// Sorted in the render order.
pub open spec fn nodes_sorted(s: Seq<RenderNodeView>) -> bool {
    forall|i: int, j: int| 0 <= i < j < s.len() ==> node_le_spec(#[trigger] s[i], #[trigger] s[j])
}

/// Every entry of an insertion is the inserted entry or one of the
/// original entries.
proof fn lemma_insert_node_elements(s: Seq<RenderNodeView>, x: RenderNodeView)
    ensures
        insert_node_spec(s, x).len() == s.len() + 1,
        forall|i: int|
            0 <= i < insert_node_spec(s, x).len() ==> (#[trigger] insert_node_spec(s, x)[i] == x
                || s.contains(insert_node_spec(s, x)[i])),
    decreases s.len(),
{
    if s.len() > 0 && !node_le_spec(x, s[0]) {
        lemma_insert_node_elements(s.skip(1), x);
        let out = insert_node_spec(s, x);
        assert forall|i: int| 0 <= i < out.len() implies (#[trigger] out[i] == x || s.contains(
            out[i],
        )) by {
            if i == 0 {
                assert(s[0] == out[0]);
            } else {
                assert(out[i] == insert_node_spec(s.skip(1), x)[i - 1]);
                if out[i] != x {
                    assert(s.skip(1).contains(out[i]));
                    let k = choose|k: int| 0 <= k < s.skip(1).len() && s.skip(1)[k] == out[i];
                    assert(s[k + 1] == out[i]);
                }
            }
        }
    }
}

/// Inserting into a sorted sequence keeps it sorted.
proof fn lemma_insert_node_sorted(s: Seq<RenderNodeView>, x: RenderNodeView)
    requires
        nodes_sorted(s),
    ensures
        nodes_sorted(insert_node_spec(s, x)),
    decreases s.len(),
{
    if s.len() == 0 {
    } else if node_le_spec(x, s[0]) {
        let out = seq![x] + s;
        assert forall|i: int, j: int|
            0 <= i < j < out.len() implies node_le_spec(#[trigger] out[i], #[trigger] out[j]) by {
            if i == 0 {
                if j > 0 {
                    assert(out[j] == s[j - 1]);
                    if j == 1 {
                    } else {
                        lemma_node_le_trans(x, s[0], s[j - 1]);
                    }
                }
            } else {
                assert(out[i] == s[i - 1] && out[j] == s[j - 1]);
            }
        }
    } else {
        assert(nodes_sorted(s.skip(1))) by {
            assert(forall|i: int, j: int|
                0 <= i < j < s.skip(1).len() ==> #[trigger] s.skip(1)[i] == s[i + 1]
                    && #[trigger] s.skip(1)[j] == s[j + 1]);
        }
        lemma_insert_node_sorted(s.skip(1), x);
        lemma_insert_node_elements(s.skip(1), x);
        lemma_node_le_total(x, s[0]);
        let sub = insert_node_spec(s.skip(1), x);
        let out = seq![s[0]] + sub;
        assert forall|i: int, j: int|
            0 <= i < j < out.len() implies node_le_spec(#[trigger] out[i], #[trigger] out[j]) by {
            if i == 0 {
                assert(out[j] == sub[j - 1]);
                if sub[j - 1] == x {
                    assert(node_le_spec(s[0], x));
                } else {
                    assert(s.skip(1).contains(sub[j - 1]));
                    let k = choose|k: int|
                        0 <= k < s.skip(1).len() && s.skip(1)[k] == sub[j - 1];
                    assert(s[k + 1] == sub[j - 1]);
                    assert(node_le_spec(s[0], s[k + 1]));
                }
            } else {
                assert(out[i] == sub[i - 1] && out[j] == sub[j - 1]);
            }
        }
    }
}

/// The insertion sort sorts.
pub proof fn lemma_sort_nodes_sorted(s: Seq<RenderNodeView>)
    ensures
        nodes_sorted(sort_nodes_spec(s)),
    decreases s.len(),
{
    if s.len() > 0 {
        lemma_sort_nodes_sorted(s.drop_last());
        lemma_insert_node_sorted(sort_nodes_spec(s.drop_last()), s.last());
    }
}

/// Every sorted entry is one of the entries given.
pub proof fn lemma_sort_nodes_elements(s: Seq<RenderNodeView>)
    ensures
        sort_nodes_spec(s).len() == s.len(),
        forall|i: int|
            0 <= i < sort_nodes_spec(s).len() ==> s.contains(#[trigger] sort_nodes_spec(s)[i]),
    decreases s.len(),
{
    if s.len() > 0 {
        lemma_sort_nodes_elements(s.drop_last());
        lemma_insert_node_elements(sort_nodes_spec(s.drop_last()), s.last());
        let out = sort_nodes_spec(s);
        assert forall|i: int| 0 <= i < out.len() implies s.contains(#[trigger] out[i]) by {
            if out[i] == s.last() {
                assert(s[s.len() - 1] == s.last());
            } else {
                assert(sort_nodes_spec(s.drop_last()).contains(out[i]));
                let k = choose|k: int|
                    0 <= k < sort_nodes_spec(s.drop_last()).len() && sort_nodes_spec(
                        s.drop_last(),
                    )[k] == out[i];
                assert(s.drop_last().contains(out[i]));
                let l = choose|l: int|
                    0 <= l < s.drop_last().len() && s.drop_last()[l] == out[i];
                assert(s[l] == out[i]);
            }
        }
    }
}

/// In a sorted sequence every editable entry stands before every
/// distribution entry.
pub proof fn lemma_editables_first(s: Seq<RenderNodeView>)
    requires
        nodes_sorted(s),
    ensures
        forall|i: int, j: int|
            0 <= i < j < s.len() && (#[trigger] s[j]).editable ==> (#[trigger] s[i]).editable,
{
    assert forall|i: int, j: int|
        0 <= i < j < s.len() && (#[trigger] s[j]).editable implies (#[trigger] s[i]).editable by {
        assert(node_le_spec(s[i], s[j]));
    }
}


// ---------------------------------------------------------------------------
// Text assembly
// ---------------------------------------------------------------------------
/// `n` spaces.
pub open spec fn spaces(n: int) -> Seq<u8> {
    Seq::new(if n < 0 { 0 } else { n as nat }, |i: int| 32u8)
}

/// A line padded with spaces to the annotation column.
pub open spec fn pad_line(s: Seq<u8>) -> Seq<u8> {
    if s.len() >= 24 {
        s
    } else {
        s + spaces(24 - s.len())
    }
}

/// A space or a tab.
pub open spec fn is_blank(b: u8) -> bool {
    b == 32 || b == 9
}

/// A line with its trailing blanks removed.
pub open spec fn trim_line(s: Seq<u8>) -> Seq<u8>
    decreases s.len(),
{
    if s.len() > 0 && is_blank(s.last()) {
        trim_line(s.drop_last())
    } else {
        s
    }
}

/// The text split at newlines, each line trimmed and re-terminated with a
/// newline; `line` is the pending text of the current line.
pub open spec fn stj_acc(s: Seq<u8>, line: Seq<u8>) -> Seq<u8>
    decreases s.len(),
{
    if s.len() == 0 {
        if line.len() == 0 {
            Seq::empty()
        } else {
            trim_line(line) + seq![10u8]
        }
    } else if s[0] == 10 {
        trim_line(line) + seq![10u8] + stj_acc(s.skip(1), Seq::empty())
    } else {
        stj_acc(s.skip(1), line.push(s[0]))
    }
}

/// The text emitted for an assembled stanza: split at newlines, each line
/// trimmed of trailing blanks and terminated with a newline.
pub open spec fn emit_trimmed_spec(s: Seq<u8>) -> Seq<u8> {
    stj_acc(s, Seq::empty())
}

/// The parts joined with the separator between them.
pub open spec fn join_with(parts: Seq<Seq<u8>>, sep: Seq<u8>) -> Seq<u8>
    decreases parts.len(),
{
    if parts.len() == 0 {
        Seq::empty()
    } else if parts.len() == 1 {
        parts[0]
    } else {
        parts[0] + sep + join_with(parts.skip(1), sep)
    }
}

/// Appending a part extends the joined text by the separator and the part.
proof fn lemma_join_push(parts: Seq<Seq<u8>>, sep: Seq<u8>, x: Seq<u8>)
    requires
        parts.len() >= 1,
    ensures
        join_with(parts.push(x), sep) == join_with(parts, sep) + sep + x,
    decreases parts.len(),
{
    if parts.len() == 1 {
        assert(parts.push(x).skip(1) =~= seq![x]);
        assert(parts.push(x)[0] == parts[0]);
        assert(join_with(parts.push(x), sep) == parts.push(x)[0] + sep + join_with(
            parts.push(x).skip(1),
            sep,
        ));
        assert(join_with(parts.push(x).skip(1), sep) == parts.push(x).skip(1)[0]);
        assert(parts.push(x).skip(1)[0] == x);
        assert(join_with(parts, sep) == parts[0]);
    } else {
        assert(parts.push(x).skip(1) =~= parts.skip(1).push(x));
        lemma_join_push(parts.skip(1), sep, x);
        assert(parts.push(x)[0] == parts[0]);
        assert(parts[0] + sep + (join_with(parts.skip(1), sep) + sep + x) =~= (parts[0] + sep
            + join_with(parts.skip(1), sep)) + sep + x);
    }
}

/// Append `line` to `out` with its trailing blanks removed.
fn push_trimmed(out: &mut Vec<u8>, line: &Vec<u8>)
    ensures
        final(out)@ == old(out)@ + trim_line(line@),
{
    let mut e: usize = line.len();
    proof {
        assert(line@.take(line@.len() as int) =~= line@);
    }
    loop
        invariant
            e <= line.len(),
            trim_line(line@) == trim_line(line@.take(e as int)),
        ensures
            e <= line.len(),
            trim_line(line@) == trim_line(line@.take(e as int)),
            e > 0 ==> !is_blank(line@[e - 1]),
        decreases e,
    {
        if e == 0 {
            break;
        }
        let b = line[e - 1];
        if b != 32 && b != 9 {
            break;
        }
        proof {
            assert(line@.take(e as int).last() == line@[e - 1]);
            assert(line@.take(e as int).drop_last() =~= line@.take(e - 1));
        }
        e = e - 1;
    }
    proof {
        if e > 0 {
            assert(line@.take(e as int).last() == line@[e - 1]);
        }
        assert(trim_line(line@.take(e as int)) == line@.take(e as int));
    }
    let mut j: usize = 0;
    while j < e
        invariant
            j <= e,
            e <= line.len(),
            trim_line(line@) == line@.take(e as int),
            out@ == old(out)@ + line@.take(j as int),
        decreases e - j,
    {
        out.push(line[j]);
        proof {
            assert(old(out)@ + line@.take(j + 1) =~= (old(out)@ + line@.take(j as int)).push(
                line@[j as int],
            ));
        }
        j = j + 1;
    }
}

/// Append the stanza text `s` to `out`, trimming each of its lines.
fn push_trimmed_lines(out: &mut Vec<u8>, s: &Vec<u8>)
    ensures
        final(out)@ == old(out)@ + emit_trimmed_spec(s@),
{
    let mut line: Vec<u8> = Vec::new();
    let mut p: usize = 0;
    proof {
        assert(s@.skip(0) =~= s@);
        assert(line@ =~= Seq::<u8>::empty());
    }
    while p < s.len()
        invariant
            p <= s.len(),
            old(out)@ + emit_trimmed_spec(s@) == out@ + stj_acc(s@.skip(p as int), line@),
        decreases s.len() - p,
    {
        let ghost rest = s@.skip(p as int);
        let ghost line0 = line@;
        let ghost out0 = out@;
        proof {
            assert(rest[0] == s@[p as int]);
            assert(rest.skip(1) =~= s@.skip(p + 1));
        }
        let b = s[p];
        if b == 10 {
            push_trimmed(out, &line);
            out.push(10);
            line = Vec::new();
            proof {
                assert(stj_acc(rest, line0) == trim_line(line0) + seq![10u8] + stj_acc(
                    s@.skip(p + 1),
                    Seq::empty(),
                ));
                assert(out@ =~= out0 + trim_line(line0) + seq![10u8]);
                assert(out0 + (trim_line(line0) + seq![10u8] + stj_acc(
                    s@.skip(p + 1),
                    Seq::empty(),
                )) =~= (out0 + trim_line(line0) + seq![10u8]) + stj_acc(
                    s@.skip(p + 1),
                    Seq::empty(),
                ));
            }
        } else {
            line.push(b);
            proof {
                assert(stj_acc(rest, line0) == stj_acc(s@.skip(p + 1), line0.push(b)));
            }
        }
        p = p + 1;
    }
    proof {
        assert(s@.skip(p as int).len() == 0);
    }
    if line.len() > 0 {
        push_trimmed(out, &line);
        out.push(10);
        proof {
            assert(out@ =~= old(out)@ + emit_trimmed_spec(s@));
        }
    }
    proof {
        assert(out@ =~= old(out)@ + emit_trimmed_spec(s@));
    }
}

/// Pad `line` with spaces to the annotation column.
fn push_pad(line: &mut Vec<u8>)
    ensures
        final(line)@ == pad_line(old(line)@),
{
    while line.len() < 24
        invariant
            old(line)@.len() <= line@.len(),
            line@ == old(line)@ + spaces(line@.len() - old(line)@.len()),
            old(line)@.len() >= 24 ==> line@.len() == old(line)@.len(),
            line@.len() <= 24 || line@.len() == old(line)@.len(),
        decreases 24 - line.len(),
    {
        let ghost k = line@.len() - old(line)@.len();
        line.push(32);
        proof {
            assert(old(line)@ + spaces(k + 1) =~= (old(line)@ + spaces(k)).push(32u8));
        }
    }
    proof {
        if old(line)@.len() >= 24 {
            assert(line@.len() == old(line)@.len());
            assert(spaces(0).len() == 0);
            assert(line@ =~= old(line)@);
        } else {
            assert(line@.len() == 24);
        }
    }
}

/// Append the parts joined with the separator.
fn push_joined(out: &mut Vec<u8>, parts: &Vec<Vec<u8>>, sep: &str)
    ensures
        final(out)@ == old(out)@ + join_with(bytes_view(parts@), lit_bytes(sep)),
{
    if parts.len() == 0 {
        proof {
            assert(old(out)@ + join_with(bytes_view(parts@), lit_bytes(sep)) =~= old(out)@);
        }
        return ;
    }
    push_bytes(out, &parts[0]);
    proof {
        assert(bytes_view(parts@)[0] == parts@[0]@);
        assert(bytes_view(parts@).take(1) =~= seq![parts@[0]@]);
    }
    let mut j: usize = 1;
    while j < parts.len()
        invariant
            1 <= j <= parts.len(),
            out@ == old(out)@ + join_with(bytes_view(parts@).take(j as int), lit_bytes(sep)),
        decreases parts.len() - j,
    {
        push_lit(out, sep);
        push_bytes(out, &parts[j]);
        proof {
            lemma_join_push(bytes_view(parts@).take(j as int), lit_bytes(sep), parts@[j as int]@);
            assert(bytes_view(parts@).take(j + 1) =~= bytes_view(parts@).take(j as int).push(
                bytes_view(parts@)[j as int],
            ));
            assert(bytes_view(parts@)[j as int] == parts@[j as int]@);
            assert(old(out)@ + (join_with(bytes_view(parts@).take(j as int), lit_bytes(sep))
                + lit_bytes(sep) + parts@[j as int]@) =~= ((old(out)@ + join_with(
                bytes_view(parts@).take(j as int),
                lit_bytes(sep),
            )) + lit_bytes(sep)) + parts@[j as int]@);
        }
        j = j + 1;
    }
    proof {
        assert(bytes_view(parts@).take(parts@.len() as int) =~= bytes_view(parts@));
    }
}

/// When the first `j` entries are all strictly below `x` and the entry at
/// `j`, if any, is not, insertion lands exactly at position `j`.
proof fn lemma_insert_node_at(s: Seq<RenderNodeView>, x: RenderNodeView, j: int)
    requires
        0 <= j <= s.len(),
        forall|k: int| 0 <= k < j ==> !node_le_spec(x, #[trigger] s[k]),
        j < s.len() ==> node_le_spec(x, s[j]),
    ensures
        insert_node_spec(s, x) == s.take(j) + seq![x] + s.skip(j),
    decreases j,
{
    if j == 0 {
        assert(insert_node_spec(s, x) =~= s.take(0) + seq![x] + s.skip(0));
    } else {
        assert(!node_le_spec(x, s[0]));
        assert(forall|k: int| 0 <= k < j - 1 ==> !node_le_spec(x, #[trigger] s.skip(1)[k]));
        lemma_insert_node_at(s.skip(1), x, j - 1);
        assert(seq![s[0]] + (s.skip(1).take(j - 1) + seq![x] + s.skip(1).skip(j - 1)) =~= s.take(j)
            + seq![x] + s.skip(j));
    }
}

/// Decide the render order between two entries.
fn node_le(a: &RenderNode, b: &RenderNode) -> (r: bool)
    ensures
        r == node_le_spec(a@, b@),
{
    if a.editable != b.editable {
        return a.editable;
    }
    if bytes_eq(&a.key, &b.key) {
        a.idx <= b.idx
    } else {
        bytes_le(&a.key, &b.key)
    }
}

/// Insert a copy of `x` into the sorted vector `v`.
fn insert_node_exec(v: &mut Vec<RenderNode>, x: &RenderNode)
    ensures
        rns_view(final(v)@) == insert_node_spec(rns_view(old(v)@), x@),
{
    let mut j: usize = 0;
    loop
        invariant
            j <= v.len(),
            v@ == old(v)@,
            forall|k: int| 0 <= k < j ==> !node_le_spec(x@, #[trigger] rns_view(v@)[k]),
        ensures
            j <= v.len(),
            v@ == old(v)@,
            forall|k: int| 0 <= k < j ==> !node_le_spec(x@, #[trigger] rns_view(v@)[k]),
            j < v.len() ==> node_le_spec(x@, rns_view(v@)[j as int]),
        decreases v.len() - j,
    {
        if j == v.len() {
            break;
        }
        proof {
            assert(rns_view(v@)[j as int] == v@[j as int]@);
        }
        if node_le(x, &v[j]) {
            break;
        }
        j = j + 1;
    }
    proof {
        lemma_insert_node_at(rns_view(v@), x@, j as int);
    }
    let ghost before = v@;
    v.insert(j, x.duplicate());
    proof {
        assert forall|k: int| 0 <= k < v@.len() implies #[trigger] rns_view(v@)[k] == (rns_view(
            before,
        ).take(j as int) + seq![x@] + rns_view(before).skip(j as int))[k] by {
            assert(rns_view(v@)[k] == v@[k]@);
            if k < j {
                assert(v@[k] == before[k]);
                assert(rns_view(before)[k] == before[k]@);
            } else if k > j {
                assert(v@[k] == before[k - 1]);
                assert(rns_view(before)[k - 1] == before[k - 1]@);
            }
        }
        assert(rns_view(v@) =~= rns_view(before).take(j as int) + seq![x@] + rns_view(
            before,
        ).skip(j as int));
    }
}

/// Sort the entries into the render order.
fn sort_nodes(v: &Vec<RenderNode>) -> (r: Vec<RenderNode>)
    ensures
        rns_view(r@) == sort_nodes_spec(rns_view(v@)),
{
    let mut r: Vec<RenderNode> = Vec::new();
    let mut i: usize = 0;
    while i < v.len()
        invariant
            i <= v.len(),
            rns_view(r@) == sort_nodes_spec(rns_view(v@).take(i as int)),
        decreases v.len() - i,
    {
        proof {
            assert(rns_view(v@)[i as int] == v@[i as int]@);
        }
        insert_node_exec(&mut r, &v[i]);
        proof {
            assert(rns_view(v@).take(i + 1).drop_last() =~= rns_view(v@).take(i as int));
            assert(rns_view(v@).take(i + 1).last() == v@[i as int]@);
        }
        i = i + 1;
    }
    proof {
        assert(rns_view(v@).take(v@.len() as int) =~= rns_view(v@));
    }
    r
}


// ---------------------------------------------------------------------------
// The rendered text
// ---------------------------------------------------------------------------
/// Every collected entry points at a node of the graph.
proof fn lemma_collect_bounds(
    nodes: Seq<DistView>,
    eds: Seq<EditableEntryView>,
    no_emit: Seq<Seq<u8>>,
    i: int,
)
    ensures
        forall|j: int|
            0 <= j < collect_from(nodes, eds, no_emit, i).len() ==> (
            #[trigger] collect_from(nodes, eds, no_emit, i)[j]).idx < nodes.len(),
    decreases nodes.len() - i,
{
    if 0 <= i < nodes.len() {
        lemma_collect_bounds(nodes, eds, no_emit, i + 1);
        let full = collect_from(nodes, eds, no_emit, i);
        let rest = collect_from(nodes, eds, no_emit, i + 1);
        assert forall|j: int| 0 <= j < full.len() implies (#[trigger] full[j]).idx < nodes.len()
            by {
            if !contains_bytes(no_emit, nodes[i].name) {
                if j == 0 {
                } else {
                    assert(full[j] == rest[j - 1]);
                }
            } else {
                assert(full[j] == rest[j]);
            }
        }
    }
}

/// The continuation lines of the hashes from position `j` on.
pub open spec fn hash_lines_from(hs: Seq<Seq<u8>>, j: int) -> Seq<u8>
    decreases hs.len() - j,
{
    if j < 0 || j >= hs.len() {
        Seq::empty()
    } else {
        lit_bytes(" \\\n    --hash=") + hs[j] + hash_lines_from(hs, j + 1)
    }
}

/// The first line of an entry: `-e ` and the editable source, or the
/// distribution's verbatim requirement text.
pub open spec fn base_line(rn: RenderNodeView, nodes: Seq<DistView>) -> Seq<u8> {
    if rn.editable {
        lit_bytes("-e ") + rn.key
    } else {
        spec_verbatim(nodes[rn.idx as int])
    }
}

/// The hash continuation block of an entry; empty when hashes are off or
/// none are recorded.
pub open spec fn node_hash_block(hashes: Seq<HashEntryView>, name: Seq<u8>, show: bool)
    -> Seq<u8> {
    if show {
        match hashes_find(hashes, name) {
            Some(h) => hash_lines_from(h.hashes, 0),
            None => Seq::empty(),
        }
    } else {
        Seq::empty()
    }
}

/// Whether an entry renders at least one hash line.
pub open spec fn node_has_hashes(hashes: Seq<HashEntryView>, name: Seq<u8>, show: bool) -> bool {
    show && match hashes_find(hashes, name) {
        Some(h) => h.hashes.len() > 0,
        None => false,
    }
}

/// The function reading a source node's package name.
pub open spec fn source_name_of(nodes: Seq<DistView>) -> spec_fn(usize) -> Seq<u8> {
    |s: usize| nodes[s as int].name
}

/// The dependent package names of the node at `idx`, unsorted.
pub open spec fn dep_names(edges: Seq<GraphEdge>, nodes: Seq<DistView>, idx: usize)
    -> Seq<Seq<u8>> {
    incoming_sources_spec(edges, idx).map_values(source_name_of(nodes))
}

/// The function indenting one dependent of a split-style block.
pub open spec fn indent_of() -> spec_fn(Seq<u8>) -> Seq<u8> {
    |d: Seq<u8>| lit_bytes("    #   ") + d
}

/// The annotation of an entry: the separator before the comment and the
/// comment itself, or nothing.
pub open spec fn annotation_spec(
    deps: Seq<Seq<u8>>,
    has_hashes: bool,
    annotate: bool,
    style: AnnotationStyle,
) -> Option<(Seq<u8>, Seq<u8>)> {
    if !annotate {
        None
    } else {
        match style {
            AnnotationStyle::Line => if deps.len() == 0 {
                None
            } else {
                Some(
                    (
                        if has_hashes {
                            lit_bytes("\n    ")
                        } else {
                            lit_bytes("  ")
                        },
                        lit_bytes("# via ") + join_with(deps, lit_bytes(", ")),
                    ),
                )
            },
            AnnotationStyle::Split => if deps.len() == 0 {
                None
            } else if deps.len() == 1 {
                Some((lit_bytes("\n"), lit_bytes("    # via ") + deps[0]))
            } else {
                Some(
                    (
                        lit_bytes("\n"),
                        lit_bytes("    # via\n") + join_with(
                            deps.map_values(indent_of()),
                            lit_bytes("\n"),
                        ),
                    ),
                )
            },
        }
    }
}

/// The full stanza of one entry: its line with hash continuations, then its
/// annotation; annotated stanzas are padded, split at newlines and trimmed,
/// a bare line is written as it stands.
pub open spec fn stanza_spec(
    rn: RenderNodeView,
    g: ResolutionGraph,
    show: bool,
    annotate: bool,
    style: AnnotationStyle,
) -> Seq<u8> {
    let nodes = dists_view(graph_nodes(g.petgraph));
    let line = base_line(rn, nodes) + node_hash_block(hashes_view(g.hashes@), rn.name, show);
    match annotation_spec(
        sort_bytes_seq(dep_names(graph_edges(g.petgraph), nodes, rn.idx)),
        node_has_hashes(hashes_view(g.hashes@), rn.name, show),
        annotate,
        style,
    ) {
        Some(sc) => emit_trimmed_spec(pad_line(line) + sc.0 + sc.1),
        None => line + seq![10u8],
    }
}

/// The stanzas of the entries from position `j` on.
pub open spec fn render_entries_from(
    entries: Seq<RenderNodeView>,
    j: int,
    g: ResolutionGraph,
    show: bool,
    annotate: bool,
    style: AnnotationStyle,
) -> Seq<u8>
    decreases entries.len() - j,
{
    if j < 0 || j >= entries.len() {
        Seq::empty()
    } else {
        stanza_spec(entries[j], g, show, annotate, style) + render_entries_from(
            entries,
            j + 1,
            g,
            show,
            annotate,
            style,
        )
    }
}

/// The whole rendered text: the included entries, sorted into the render
/// order, one stanza each.
pub open spec fn render_spec(
    g: ResolutionGraph,
    no_emit: Seq<Seq<u8>>,
    show_hashes: bool,
    include_annotations: bool,
    style: AnnotationStyle,
) -> Seq<u8> {
    let nodes = dists_view(graph_nodes(g.petgraph));
    render_entries_from(
        sort_nodes_spec(collect_from(nodes, g.editables@, no_emit, 0)),
        0,
        g,
        show_hashes,
        include_annotations,
        style,
    )
}


/// A configured rendering of a resolution graph.
pub struct DisplayResolutionGraph<'a> {
    /// The graph to render.
    pub resolution: &'a ResolutionGraph,
    /// Package names never rendered as lines of their own.
    pub no_emit_packages: &'a [Vec<u8>],
    /// Whether to render hash continuation lines.
    pub show_hashes: bool,
    /// Whether to render dependent annotations.
    pub include_annotations: bool,
    /// The style of the dependent annotations.
    pub annotation_style: AnnotationStyle,
}

impl<'a> DisplayResolutionGraph<'a> {
    /// A rendering of `underlying` with the given options.
    pub fn new(
        underlying: &'a ResolutionGraph,
        no_emit_packages: &'a [Vec<u8>],
        show_hashes: bool,
        include_annotations: bool,
        annotation_style: AnnotationStyle,
    ) -> (r: DisplayResolutionGraph<'a>)
        ensures
            r.resolution == underlying,
            r.no_emit_packages == no_emit_packages,
            r.show_hashes == show_hashes,
            r.include_annotations == include_annotations,
            r.annotation_style == annotation_style,
    {
        DisplayResolutionGraph {
            resolution: underlying,
            no_emit_packages,
            show_hashes,
            include_annotations,
            annotation_style,
        }
    }

    /// Render the graph: the sorted stanzas of every included package, as
    /// `render_spec` states them.
    #[verifier::rlimit(100)]
    pub fn render(&self) -> (out: Vec<u8>)
        requires
            self.resolution.wf(),
        ensures
            out@ == render_spec(
                *self.resolution,
                bytes_view(self.no_emit_packages@),
                self.show_hashes,
                self.include_annotations,
                self.annotation_style,
            ),
    {
        let ghost nodes = dists_view(graph_nodes(self.resolution.petgraph));
        let ghost edsv = self.resolution.editables@;
        let ghost nv = bytes_view(self.no_emit_packages@);
        let n = graph_node_count(&self.resolution.petgraph);
        let mut entries: Vec<RenderNode> = Vec::new();
        let mut i: usize = 0;
        proof {
            assert(rns_view(entries@) =~= Seq::<RenderNodeView>::empty());
            assert(rns_view(entries@) + collect_from(nodes, edsv, nv, 0) =~= collect_from(
                nodes,
                edsv,
                nv,
                0,
            ));
        }
        while i < n
            invariant
                nodes == dists_view(graph_nodes(self.resolution.petgraph)),
                edsv == self.resolution.editables@,
                nv == bytes_view(self.no_emit_packages@),
                n == nodes.len(),
                i <= n,
                collect_from(nodes, edsv, nv, 0) == rns_view(entries@) + collect_from(
                    nodes,
                    edsv,
                    nv,
                    i as int,
                ),
            decreases n - i,
        {
            let ghost before = rns_view(entries@);
            let d = graph_node(&self.resolution.petgraph, i);
            proof {
                assert(nodes[i as int] == graph_nodes(self.resolution.petgraph)[i as int]@);
            }
            if !slice_contains(self.no_emit_packages, &d.name) {
                match self.resolution.editables.get(&d.name) {
                    Some(e) => {
                        entries.push(
                            RenderNode {
                                idx: i,
                                editable: true,
                                key: copy_bytes(&e.verbatim),
                                name: copy_bytes(&d.name),
                            },
                        );
                    },
                    None => {
                        entries.push(
                            RenderNode {
                                idx: i,
                                editable: false,
                                key: copy_bytes(&d.name),
                                name: copy_bytes(&d.name),
                            },
                        );
                    },
                }
                proof {
                    assert(rns_view(entries@) =~= before.push(entry_of(nodes, edsv, i as int)));
                    assert(collect_from(nodes, edsv, nv, i as int) == seq![entry_of(
                        nodes,
                        edsv,
                        i as int,
                    )] + collect_from(nodes, edsv, nv, i + 1));
                    assert(before + (seq![entry_of(nodes, edsv, i as int)] + collect_from(
                        nodes,
                        edsv,
                        nv,
                        i + 1,
                    )) =~= before.push(entry_of(nodes, edsv, i as int)) + collect_from(
                        nodes,
                        edsv,
                        nv,
                        i + 1,
                    ));
                }
            } else {
                proof {
                    assert(collect_from(nodes, edsv, nv, i as int) == collect_from(
                        nodes,
                        edsv,
                        nv,
                        i + 1,
                    ));
                }
            }
            i = i + 1;
        }
        proof {
            assert(collect_from(nodes, edsv, nv, n as int).len() == 0);
            assert(rns_view(entries@) + collect_from(nodes, edsv, nv, n as int) =~= rns_view(
                entries@,
            ));
        }
        let sorted = sort_nodes(&entries);
        let ghost sortedv = rns_view(sorted@);
        proof {
            lemma_collect_bounds(nodes, edsv, nv, 0);
            lemma_sort_nodes_elements(rns_view(entries@));
            assert forall|k: int| 0 <= k < sortedv.len() implies (#[trigger] sortedv[k]).idx
                < nodes.len() by {
                assert(rns_view(entries@).contains(sortedv[k]));
                let l = choose|l: int|
                    0 <= l < rns_view(entries@).len() && rns_view(entries@)[l] == sortedv[k];
            }
        }
        let mut out: Vec<u8> = Vec::new();
        let mut j: usize = 0;
        let ghost target = render_spec(
            *self.resolution,
            nv,
            self.show_hashes,
            self.include_annotations,
            self.annotation_style,
        );
        proof {
            assert(out@ + render_entries_from(
                sortedv,
                0,
                *self.resolution,
                self.show_hashes,
                self.include_annotations,
                self.annotation_style,
            ) =~= target);
        }
        while j < sorted.len()
            invariant
                self.resolution.wf(),
                nodes == dists_view(graph_nodes(self.resolution.petgraph)),
                sortedv == rns_view(sorted@),
                forall|k: int| 0 <= k < sortedv.len() ==> (#[trigger] sortedv[k]).idx < nodes.len(),
                j <= sorted.len(),
                sortedv.len() == sorted.len(),
                target == render_spec(
                    *self.resolution,
                    nv,
                    self.show_hashes,
                    self.include_annotations,
                    self.annotation_style,
                ),
                target == out@ + render_entries_from(
                    sortedv,
                    j as int,
                    *self.resolution,
                    self.show_hashes,
                    self.include_annotations,
                    self.annotation_style,
                ),
            decreases sorted.len() - j,
        {
            let e = &sorted[j];
            proof {
                assert(sortedv[j as int] == sorted@[j as int]@);
            }
            let ghost rn = sortedv[j as int];
            let ghost hv = hashes_view(self.resolution.hashes@);
            let mut line: Vec<u8>;
            if e.editable {
                line = Vec::new();
                push_lit(&mut line, "-e ");
                push_bytes(&mut line, &e.key);
                proof {
                    assert(line@ =~= lit_bytes("-e ") + rn.key);
                }
            } else {
                let d = graph_node(&self.resolution.petgraph, e.idx);
                proof {
                    assert(nodes[rn.idx as int] == graph_nodes(
                        self.resolution.petgraph,
                    )[rn.idx as int]@);
                }
                line = d.verbatim();
            }
            proof {
                assert(line@ == base_line(rn, nodes));
            }
            let ghost base = line@;
            let mut has_hashes = false;
            if self.show_hashes {
                match crate::resolution::hashes_get(&self.resolution.hashes, &e.name) {
                    Some(h) => {
                        if h.hashes.len() > 0 {
                            has_hashes = true;
                        }
                        let ghost hsv = bytes_view(h.hashes@);
                        let mut q: usize = 0;
                        proof {
                            assert(base + hash_lines_from(hsv, 0) =~= line@ + hash_lines_from(
                                hsv,
                                0,
                            ));
                        }
                        while q < h.hashes.len()
                            invariant
                                hsv == bytes_view(h.hashes@),
                                q <= h.hashes.len(),
                                base + hash_lines_from(hsv, 0) == line@ + hash_lines_from(
                                    hsv,
                                    q as int,
                                ),
                            decreases h.hashes.len() - q,
                        {
                            let ghost l0 = line@;
                            push_lit(&mut line, " \\\n    --hash=");
                            push_bytes(&mut line, &h.hashes[q]);
                            proof {
                                assert(hsv[q as int] == h.hashes@[q as int]@);
                                assert(hash_lines_from(hsv, q as int) == lit_bytes(
                                    " \\\n    --hash=",
                                ) + hsv[q as int] + hash_lines_from(hsv, q + 1));
                                assert(l0 + (lit_bytes(" \\\n    --hash=") + hsv[q as int]
                                    + hash_lines_from(hsv, q + 1)) =~= ((l0 + lit_bytes(
                                    " \\\n    --hash=",
                                )) + hsv[q as int]) + hash_lines_from(hsv, q + 1));
                            }
                            q = q + 1;
                        }
                        proof {
                            assert(hash_lines_from(hsv, h.hashes@.len() as int).len() == 0);
                            assert(line@ + hash_lines_from(hsv, h.hashes@.len() as int) =~= line@);
                            assert(node_hash_block(hv, rn.name, self.show_hashes) == hash_lines_from(
                                hsv,
                                0,
                            ));
                            assert(line@ == base + node_hash_block(hv, rn.name, self.show_hashes));
                            assert(has_hashes == node_has_hashes(hv, rn.name, self.show_hashes));
                        }
                    },
                    None => {
                        proof {
                            assert(node_hash_block(hv, rn.name, self.show_hashes).len() == 0);
                            assert(line@ =~= base + node_hash_block(hv, rn.name, self.show_hashes));
                            assert(has_hashes == node_has_hashes(hv, rn.name, self.show_hashes));
                        }
                    },
                }
            } else {
                proof {
                    assert(node_hash_block(hv, rn.name, self.show_hashes).len() == 0);
                    assert(line@ =~= base + node_hash_block(hv, rn.name, self.show_hashes));
                    assert(has_hashes == node_has_hashes(hv, rn.name, self.show_hashes));
                }
            }
            let ghost full_line = line@;
            let ghost deps_spec = sort_bytes_seq(
                dep_names(graph_edges(self.resolution.petgraph), nodes, rn.idx),
            );
            let ghost ann_spec = annotation_spec(
                deps_spec,
                node_has_hashes(hv, rn.name, self.show_hashes),
                self.include_annotations,
                self.annotation_style,
            );
            if self.include_annotations {
                let srcs = graph_incoming_sources(&self.resolution.petgraph, e.idx);
                proof {
                    lemma_incoming_bounds(
                        graph_edges(self.resolution.petgraph),
                        rn.idx,
                        nodes.len() as int,
                    );
                }
                let mut dep_list: Vec<Vec<u8>> = Vec::new();
                let mut si: usize = 0;
                while si < srcs.len()
                    invariant
                        nodes == dists_view(graph_nodes(self.resolution.petgraph)),
                        srcs@ == incoming_sources_spec(
                            graph_edges(self.resolution.petgraph),
                            rn.idx,
                        ),
                        forall|k: int| 0 <= k < srcs@.len() ==> (#[trigger] srcs@[k]) < nodes.len(),
                        si <= srcs.len(),
                        dep_list@.len() == si,
                        forall|k: int|
                            0 <= k < si ==> #[trigger] dep_list@[k]@ == nodes[srcs@[k] as int].name,
                    decreases srcs.len() - si,
                {
                    let src = srcs[si];
                    let d2 = graph_node(&self.resolution.petgraph, src);
                    proof {
                        assert(nodes[src as int] == graph_nodes(
                            self.resolution.petgraph,
                        )[src as int]@);
                    }
                    dep_list.push(copy_bytes(&d2.name));
                    si = si + 1;
                }
                proof {
                    assert forall|k: int| 0 <= k < bytes_view(dep_list@).len() implies #[trigger]
                    bytes_view(dep_list@)[k] == dep_names(
                        graph_edges(self.resolution.petgraph),
                        nodes,
                        rn.idx,
                    )[k] by {
                        assert(bytes_view(dep_list@)[k] == dep_list@[k]@);
                        assert(dep_names(graph_edges(self.resolution.petgraph), nodes, rn.idx)[k]
                            == source_name_of(nodes)(srcs@[k]));
                    }
                    assert(bytes_view(dep_list@) =~= dep_names(
                        graph_edges(self.resolution.petgraph),
                        nodes,
                        rn.idx,
                    ));
                }
                let deps = sort_bytes(&dep_list);
                proof {
                    assert(bytes_view(deps@) == deps_spec);
                }
                if deps.len() == 0 {
                    push_bytes(&mut out, &line);
                    out.push(10);
                    proof {
                        assert(ann_spec is None);
                        assert(stanza_spec(
                            rn,
                            *self.resolution,
                            self.show_hashes,
                            self.include_annotations,
                            self.annotation_style,
                        ) == full_line + seq![10u8]);
                    }
                } else {
                    let mut sep: Vec<u8> = Vec::new();
                    let mut comment: Vec<u8> = Vec::new();
                    match self.annotation_style {
                        AnnotationStyle::Line => {
                            if has_hashes {
                                push_lit(&mut sep, "\n    ");
                            } else {
                                push_lit(&mut sep, "  ");
                            }
                            push_lit(&mut comment, "# via ");
                            push_joined(&mut comment, &deps, ", ");
                            proof {
                                assert(sep@ =~= if node_has_hashes(hv, rn.name, self.show_hashes) {
                                    lit_bytes("\n    ")
                                } else {
                                    lit_bytes("  ")
                                });
                                assert(comment@ =~= lit_bytes("# via ") + join_with(
                                    deps_spec,
                                    lit_bytes(", "),
                                ));
                                assert(ann_spec == Some((sep@, comment@)));
                            }
                        },
                        AnnotationStyle::Split => {
                            push_lit(&mut sep, "\n");
                            proof {
                                assert(sep@ =~= lit_bytes("\n"));
                            }
                            if deps.len() == 1 {
                                push_lit(&mut comment, "    # via ");
                                push_bytes(&mut comment, &deps[0]);
                                proof {
                                    assert(bytes_view(deps@)[0] == deps@[0]@);
                                    assert(comment@ =~= lit_bytes("    # via ") + deps_spec[0]);
                                    assert(ann_spec == Some((sep@, comment@)));
                                }
                            } else {
                                push_lit(&mut comment, "    # via\n");
                                let mut parts: Vec<Vec<u8>> = Vec::new();
                                let mut di: usize = 0;
                                while di < deps.len()
                                    invariant
                                        deps_spec == bytes_view(deps@),
                                        di <= deps.len(),
                                        parts@.len() == di,
                                        forall|k: int|
                                            0 <= k < di ==> #[trigger] parts@[k]@ == indent_of()(
                                                deps_spec[k],
                                            ),
                                    decreases deps.len() - di,
                                {
                                    let mut p: Vec<u8> = Vec::new();
                                    push_lit(&mut p, "    #   ");
                                    push_bytes(&mut p, &deps[di]);
                                    proof {
                                        assert(bytes_view(deps@)[di as int] == deps@[di as int]@);
                                        assert(p@ =~= lit_bytes("    #   ") + deps_spec[di as int]);
                                    }
                                    parts.push(p);
                                    di = di + 1;
                                }
                                proof {
                                    assert forall|k: int|
                                        0 <= k < bytes_view(parts@).len() implies #[trigger]
                                    bytes_view(parts@)[k] == deps_spec.map_values(indent_of())[k]
                                        by {
                                        assert(bytes_view(parts@)[k] == parts@[k]@);
                                    }
                                    assert(bytes_view(parts@) =~= deps_spec.map_values(
                                        indent_of(),
                                    ));
                                }
                                push_joined(&mut comment, &parts, "\n");
                                proof {
                                    assert(comment@ =~= lit_bytes("    # via\n") + join_with(
                                        deps_spec.map_values(indent_of()),
                                        lit_bytes("\n"),
                                    ));
                                    assert(ann_spec == Some((sep@, comment@)));
                                }
                            }
                        },
                    }
                    push_pad(&mut line);
                    push_bytes(&mut line, &sep);
                    push_bytes(&mut line, &comment);
                    proof {
                        assert(line@ =~= pad_line(full_line) + sep@ + comment@);
                    }
                    push_trimmed_lines(&mut out, &line);
                    proof {
                        assert(stanza_spec(
                            rn,
                            *self.resolution,
                            self.show_hashes,
                            self.include_annotations,
                            self.annotation_style,
                        ) == emit_trimmed_spec(pad_line(full_line) + sep@ + comment@));
                    }
                }
            } else {
                push_bytes(&mut out, &line);
                out.push(10);
                proof {
                    assert(ann_spec is None);
                    assert(stanza_spec(
                        rn,
                        *self.resolution,
                        self.show_hashes,
                        self.include_annotations,
                        self.annotation_style,
                    ) == full_line + seq![10u8]);
                }
            }
            proof {
                assert(render_entries_from(
                    sortedv,
                    j as int,
                    *self.resolution,
                    self.show_hashes,
                    self.include_annotations,
                    self.annotation_style,
                ) == stanza_spec(
                    rn,
                    *self.resolution,
                    self.show_hashes,
                    self.include_annotations,
                    self.annotation_style,
                ) + render_entries_from(
                    sortedv,
                    j + 1,
                    *self.resolution,
                    self.show_hashes,
                    self.include_annotations,
                    self.annotation_style,
                ));
            }
            j = j + 1;
        }
        proof {
            assert(render_entries_from(
                sortedv,
                sorted@.len() as int,
                *self.resolution,
                self.show_hashes,
                self.include_annotations,
                self.annotation_style,
            ).len() == 0);
            assert(out@ + render_entries_from(
                sortedv,
                sorted@.len() as int,
                *self.resolution,
                self.show_hashes,
                self.include_annotations,
                self.annotation_style,
            ) =~= out@);
        }
        out
    }
}


impl<'a> DisplayResolutionGraph<'a> {
    /// The default rendering of a graph: nothing excluded, no hashes,
    /// split-style annotations.
    pub fn from(resolution: &'a ResolutionGraph) -> (r: DisplayResolutionGraph<'a>)
        ensures
            r.resolution == resolution,
            r.no_emit_packages@.len() == 0,
            r.show_hashes == false,
            r.include_annotations == true,
            r.annotation_style == AnnotationStyle::Split,
    {
        DisplayResolutionGraph {
            resolution,
            no_emit_packages: &[],
            show_hashes: false,
            include_annotations: true,
            annotation_style: AnnotationStyle::Split,
        }
    }
}

} // verus!
