//! Laws of the renderer, stated over the rendering specification and proved
//! once for every tree, configuration and position.

use vstd::prelude::*;
use crate::FsNode;
use crate::order::lex_lt;
use crate::select::count_kept;
use crate::select::idx_le;
use crate::select::is_hidden;
use crate::select::keep;
use crate::select::lemma_ordered_props;
use crate::select::ordered_idxs;
use crate::render::child_is_last;
use crate::render::connector;
use crate::render::label_line;
use crate::render::render_list_spec;
use crate::render::render_node_spec;
use crate::render::render_tree_spec;
use crate::render::segment;
use crate::render::shown_count;
use crate::render::style_of;
use crate::render::summary_line;
use crate::render::LineView;
use crate::render::Style;

verus! {

/// How many lines of a render satisfy a predicate.
pub open spec fn count_lines(lines: Seq<LineView>, p: spec_fn(LineView) -> bool) -> nat
    decreases lines.len(),
{
    if lines.len() == 0 {
        0
    } else {
        (if p(lines[0]) {
            1nat
        } else {
            0nat
        }) + count_lines(lines.drop_first(), p)
    }
}

/// A line whose indentation is `plen` columns and which labels an entry.
pub open spec fn entry_at(plen: nat) -> spec_fn(LineView) -> bool {
    |l: LineView| l.prefix.len() == plen && l.style != Style::Note
}

/// A summary line indented `plen` columns.
pub open spec fn note_at(plen: nat) -> spec_fn(LineView) -> bool {
    |l: LineView| l.prefix.len() == plen && l.style == Style::Note
}

/// Whether `p` ends in `tail`.
pub open spec fn ends_with(p: Seq<char>, tail: Seq<char>) -> bool {
    p.len() >= tail.len() && p.subrange(p.len() - tail.len(), p.len() as int) == tail
}

/// An entry label at `plen` columns drawn with the terminal connector
/// (`last` true) or the continuing one (`last` false).
pub open spec fn entry_conn_at(plen: nat, last: bool) -> spec_fn(LineView) -> bool {
    |l: LineView|
        l.prefix.len() == plen && l.style != Style::Note && ends_with(l.prefix, connector(last))
}

proof fn lemma_count_zero(lines: Seq<LineView>, p: spec_fn(LineView) -> bool)
    requires
        forall|i: int| 0 <= i < lines.len() ==> !p(#[trigger] lines[i]),
    ensures
        count_lines(lines, p) == 0,
    decreases lines.len(),
{
    if lines.len() > 0 {
        assert forall|i: int| 0 <= i < lines.drop_first().len() implies !p(
            #[trigger] lines.drop_first()[i],
        ) by {
            assert(lines.drop_first()[i] == lines[i + 1]);
        }
        lemma_count_zero(lines.drop_first(), p);
    }
}

proof fn lemma_count_single(x: LineView, p: spec_fn(LineView) -> bool)
    ensures
        count_lines(seq![x], p) == if p(x) {
            1nat
        } else {
            0nat
        },
{
    assert(seq![x].drop_first() =~= Seq::<LineView>::empty());
    assert(count_lines(Seq::<LineView>::empty(), p) == 0);
    assert(seq![x][0] == x);
}

proof fn lemma_count_concat(a: Seq<LineView>, b: Seq<LineView>, p: spec_fn(LineView) -> bool)
    ensures
        count_lines(a + b, p) == count_lines(a, p) + count_lines(b, p),
    decreases a.len(),
{
    if a.len() == 0 {
        assert(a + b =~= b);
    } else {
        assert((a + b).drop_first() =~= a.drop_first() + b);
        assert((a + b)[0] == a[0]);
        lemma_count_concat(a.drop_first(), b, p);
    }
}

/// A prefix built as `base + connector(a)` ends in `connector(b)` exactly
/// when the connectors agree.
proof fn lemma_conn_ends(base: Seq<char>, a: bool, b: bool)
    ensures
        ends_with(base + connector(a), connector(b)) == (a == b),
{
    let p = base + connector(a);
    assert(p.subrange(p.len() - 4, p.len() as int) =~= connector(a));
    if a != b {
        assert(connector(a)[0] != connector(b)[0]);
    }
}

/// The original's test for the terminal connector — last under the cap, or
/// last that exists — holds exactly of the final rendered child.
pub proof fn lemma_last_flag(k: int, total: nat, cap: nat)
    requires
        0 <= k < shown_count(total, cap),
    ensures
        child_is_last(k, total as int, cap as int) <==> k == shown_count(total, cap) - 1,
{
}

/// Every line of a render is indented at least one segment past the caller's
/// prefix; exactly one line of it labels an entry at the first such depth,
/// drawn with the connector of the render's position; and it holds one
/// summary note at that depth exactly when the render is of a directory with
/// more listed children than the cap.
proof fn lemma_node_counts(n: FsNode, prefix: Seq<char>, is_last: bool, cap: nat, sh: bool)
    ensures
        forall|i: int|
            0 <= i < render_node_spec(n, prefix, is_last, cap, sh).len() ==> (
            #[trigger] render_node_spec(n, prefix, is_last, cap, sh)[i]).prefix.len()
                >= prefix.len() + 4,
        count_lines(render_node_spec(n, prefix, is_last, cap, sh), entry_at(prefix.len() + 4))
            == 1,
        count_lines(
            render_node_spec(n, prefix, is_last, cap, sh),
            entry_conn_at(prefix.len() + 4, is_last),
        ) == 1,
        count_lines(
            render_node_spec(n, prefix, is_last, cap, sh),
            entry_conn_at(prefix.len() + 4, !is_last),
        ) == 0,
        count_lines(render_node_spec(n, prefix, is_last, cap, sh), note_at(prefix.len() + 4))
            == if n is Dir && ordered_idxs(n->Dir_children@, sh).len() > cap {
            1nat
        } else {
            0nat
        },
    decreases n, 1int, 0int,
{
    let r = render_node_spec(n, prefix, is_last, cap, sh);
    let lbl = label_line(n, prefix, is_last);
    assert(lbl.prefix.len() == prefix.len() + 4);
    assert(style_of(n) != Style::Note);
    lemma_conn_ends(prefix, is_last, is_last);
    lemma_conn_ends(prefix, is_last, !is_last);
    match n {
        FsNode::File { .. } => {
            lemma_count_single(lbl, entry_at(prefix.len() + 4));
            lemma_count_single(lbl, entry_conn_at(prefix.len() + 4, is_last));
            lemma_count_single(lbl, entry_conn_at(prefix.len() + 4, !is_last));
            lemma_count_single(lbl, note_at(prefix.len() + 4));
        },
        FsNode::Dir { children, .. } => {
            assert(children.len() == children@.len());
            lemma_ordered_props(children@, sh);
            let ord = ordered_idxs(children@, sh);
            let cp = prefix + segment(is_last);
            assert(cp.len() == prefix.len() + 4);
            let kids = render_list_spec(children@, ord, 0, cap, sh, cp);
            lemma_list_counts(children@, ord, 0, cap, sh, cp);
            let lbls = seq![lbl];
            lemma_count_single(lbl, entry_at(prefix.len() + 4));
            lemma_count_single(lbl, entry_conn_at(prefix.len() + 4, is_last));
            lemma_count_single(lbl, entry_conn_at(prefix.len() + 4, !is_last));
            lemma_count_single(lbl, note_at(prefix.len() + 4));
            assert forall|i: int| 0 <= i < kids.len() implies !(entry_at(prefix.len() + 4))(
                #[trigger] kids[i],
            ) && !(entry_conn_at(prefix.len() + 4, is_last))(kids[i]) && !(entry_conn_at(
                prefix.len() + 4,
                !is_last,
            ))(kids[i]) && !(note_at(prefix.len() + 4))(kids[i]) by {
                assert(kids[i].prefix.len() >= prefix.len() + 8);
            }
            lemma_count_zero(kids, entry_at(prefix.len() + 4));
            lemma_count_zero(kids, entry_conn_at(prefix.len() + 4, is_last));
            lemma_count_zero(kids, entry_conn_at(prefix.len() + 4, !is_last));
            lemma_count_zero(kids, note_at(prefix.len() + 4));
            lemma_count_concat(lbls, kids, entry_at(prefix.len() + 4));
            lemma_count_concat(lbls, kids, entry_conn_at(prefix.len() + 4, is_last));
            lemma_count_concat(lbls, kids, entry_conn_at(prefix.len() + 4, !is_last));
            lemma_count_concat(lbls, kids, note_at(prefix.len() + 4));
            if ord.len() > cap {
                let note = summary_line(prefix, is_last, (ord.len() - cap) as nat);
                assert(note.prefix.len() == prefix.len() + 4);
                let notes = seq![note];
                lemma_count_single(note, entry_at(prefix.len() + 4));
                lemma_count_single(note, entry_conn_at(prefix.len() + 4, is_last));
                lemma_count_single(note, entry_conn_at(prefix.len() + 4, !is_last));
                lemma_count_single(note, note_at(prefix.len() + 4));
                lemma_count_concat(lbls + kids, notes, entry_at(prefix.len() + 4));
                lemma_count_concat(lbls + kids, notes, entry_conn_at(prefix.len() + 4, is_last));
                lemma_count_concat(lbls + kids, notes, entry_conn_at(prefix.len() + 4, !is_last));
                lemma_count_concat(lbls + kids, notes, note_at(prefix.len() + 4));
                assert(r == lbls + kids + notes);
            } else {
                assert(r == lbls + kids);
            }
        },
    }
}

/// The listed children from position `k` on contribute one entry label each
/// at the depth below `cp`, the final one drawn with the terminal connector,
/// the others with the continuing one; nothing they contribute is indented
/// less than one segment past `cp`.
proof fn lemma_list_counts(
    children: Seq<FsNode>,
    ord: Seq<usize>,
    k: int,
    cap: nat,
    sh: bool,
    cp: Seq<char>,
)
    requires
        0 <= k <= shown_count(ord.len(), cap),
        forall|w: int| 0 <= w < ord.len() ==> (#[trigger] ord[w] as int) < children.len(),
    ensures
        forall|i: int|
            0 <= i < render_list_spec(children, ord, k, cap, sh, cp).len() ==> (
            #[trigger] render_list_spec(children, ord, k, cap, sh, cp)[i]).prefix.len()
                >= cp.len() + 4,
        count_lines(render_list_spec(children, ord, k, cap, sh, cp), entry_at(cp.len() + 4))
            == shown_count(ord.len(), cap) - k,
        count_lines(
            render_list_spec(children, ord, k, cap, sh, cp),
            entry_conn_at(cp.len() + 4, true),
        ) == if k < shown_count(ord.len(), cap) {
            1nat
        } else {
            0nat
        },
        count_lines(
            render_list_spec(children, ord, k, cap, sh, cp),
            entry_conn_at(cp.len() + 4, false),
        ) == shown_count(ord.len(), cap) - k - (if k < shown_count(ord.len(), cap) {
            1nat
        } else {
            0nat
        }),
    decreases children, 0int, shown_count(ord.len(), cap) - k,
{
    let shown = shown_count(ord.len(), cap) as int;
    let r = render_list_spec(children, ord, k, cap, sh, cp);
    if k < shown {
        let child = children[ord[k] as int];
        let flag = child_is_last(k, ord.len() as int, cap as int);
        let head = render_node_spec(child, cp, flag, cap, sh);
        let tail = render_list_spec(children, ord, k + 1, cap, sh, cp);
        assert(r == head + tail);
        lemma_node_counts(child, cp, flag, cap, sh);
        lemma_list_counts(children, ord, k + 1, cap, sh, cp);
        lemma_last_flag(k, ord.len(), cap);
        lemma_count_concat(head, tail, entry_at(cp.len() + 4));
        lemma_count_concat(head, tail, entry_conn_at(cp.len() + 4, true));
        lemma_count_concat(head, tail, entry_conn_at(cp.len() + 4, false));
        assert forall|i: int| 0 <= i < r.len() implies (#[trigger] r[i]).prefix.len() >= cp.len()
            + 4 by {
            if i < head.len() {
                assert(r[i] == head[i]);
            } else {
                assert(r[i] == tail[i - head.len()]);
            }
        }
        if flag {
            assert(count_lines(head, entry_conn_at(cp.len() + 4, true)) == 1);
            assert(count_lines(head, entry_conn_at(cp.len() + 4, false)) == 0);
        } else {
            assert(count_lines(head, entry_conn_at(cp.len() + 4, false)) == 1);
            assert(count_lines(head, entry_conn_at(cp.len() + 4, true)) == 0);
        }
    }
}

/// Ordering law: the entries a directory's listing presents come in strictly
/// ascending lexical order of their names. A snapshot of a real filesystem
/// is well formed — sibling names are distinct — which the hypothesis
/// records.
pub proof fn lemma_listing_ascending(n: FsNode, show_hidden: bool)
    requires
        n.well_formed(),
        n is Dir,
    ensures
        forall|p: int, q: int|
            0 <= p < q < ordered_idxs(n.spec_children(), show_hidden).len() ==> lex_lt(
                n.spec_children()[#[trigger] ordered_idxs(n.spec_children(), show_hidden)[p] as int].spec_name(),
                n.spec_children()[#[trigger] ordered_idxs(n.spec_children(), show_hidden)[q] as int].spec_name(),
            ),
{
    let children = n.spec_children();
    assert(n->Dir_children.len() == children.len());
    lemma_ordered_props(children, show_hidden);
    let ord = ordered_idxs(children, show_hidden);
    assert forall|p: int, q: int| 0 <= p < q < ord.len() implies lex_lt(
        children[#[trigger] ord[p] as int].spec_name(),
        children[#[trigger] ord[q] as int].spec_name(),
    ) by {
        assert(idx_le(children, ord[p], ord[q]));
        assert(ord[p] != ord[q]);
        let a = children[ord[p] as int].spec_name();
        let b = children[ord[q] as int].spec_name();
        if a == b {
            if (ord[p] as int) < (ord[q] as int) {
                assert(children[ord[p] as int].spec_name() != children[ord[q] as int].spec_name());
            } else {
                assert(children[ord[q] as int].spec_name() != children[ord[p] as int].spec_name());
            }
        }
    }
}

/// Cap and connector law over a directory's render: the listing holds one
/// position per kept child; the rendered child labels number exactly the
/// smaller of that count and the cap; the render ends in exactly one summary
/// note — carrying the count of what was left out — when children were left
/// out, and holds none otherwise; and of the child labels exactly the final
/// one is drawn with the terminal connector, every other with the continuing
/// one.
pub proof fn lemma_directory_listing(
    n: FsNode,
    prefix: Seq<char>,
    is_last: bool,
    cap: nat,
    sh: bool,
)
    requires
        n is Dir,
    ensures
        ordered_idxs(n->Dir_children@, sh).len() == count_kept(
            n->Dir_children@,
            sh,
            n->Dir_children@.len(),
        ),
        count_lines(render_node_spec(n, prefix, is_last, cap, sh), entry_at(prefix.len() + 8))
            == shown_count(ordered_idxs(n->Dir_children@, sh).len(), cap),
        count_lines(render_node_spec(n, prefix, is_last, cap, sh), note_at(prefix.len() + 4))
            == if ordered_idxs(n->Dir_children@, sh).len() > cap {
            1nat
        } else {
            0nat
        },
        ordered_idxs(n->Dir_children@, sh).len() > cap ==> render_node_spec(
            n,
            prefix,
            is_last,
            cap,
            sh,
        ).last() == summary_line(
            prefix,
            is_last,
            (ordered_idxs(n->Dir_children@, sh).len() - cap) as nat,
        ),
        count_lines(
            render_node_spec(n, prefix, is_last, cap, sh),
            entry_conn_at(prefix.len() + 8, true),
        ) == if shown_count(ordered_idxs(n->Dir_children@, sh).len(), cap) > 0 {
            1nat
        } else {
            0nat
        },
        count_lines(
            render_node_spec(n, prefix, is_last, cap, sh),
            entry_conn_at(prefix.len() + 8, false),
        ) == shown_count(ordered_idxs(n->Dir_children@, sh).len(), cap) - (if shown_count(
            ordered_idxs(n->Dir_children@, sh).len(),
            cap,
        ) > 0 {
            1nat
        } else {
            0nat
        }),
{
    let r = render_node_spec(n, prefix, is_last, cap, sh);
    let children = n->Dir_children;
    assert(children.len() == children@.len());
    lemma_ordered_props(children@, sh);
    let ord = ordered_idxs(children@, sh);
    let cp = prefix + segment(is_last);
    assert(cp.len() == prefix.len() + 4);
    let kids = render_list_spec(children@, ord, 0, cap, sh, cp);
    lemma_list_counts(children@, ord, 0, cap, sh, cp);
    let lbl = label_line(n, prefix, is_last);
    assert(lbl.prefix.len() == prefix.len() + 4);
    assert(style_of(n) != Style::Note);
    let lbls = seq![lbl];
    lemma_count_single(lbl, entry_at(prefix.len() + 8));
    lemma_count_single(lbl, note_at(prefix.len() + 4));
    lemma_count_single(lbl, entry_conn_at(prefix.len() + 8, true));
    lemma_count_single(lbl, entry_conn_at(prefix.len() + 8, false));
    assert forall|i: int| 0 <= i < kids.len() implies !(note_at(prefix.len() + 4))(
        #[trigger] kids[i],
    ) by {
        assert(kids[i].prefix.len() >= prefix.len() + 8);
    }
    lemma_count_zero(kids, note_at(prefix.len() + 4));
    lemma_count_concat(lbls, kids, entry_at(prefix.len() + 8));
    lemma_count_concat(lbls, kids, note_at(prefix.len() + 4));
    lemma_count_concat(lbls, kids, entry_conn_at(prefix.len() + 8, true));
    lemma_count_concat(lbls, kids, entry_conn_at(prefix.len() + 8, false));
    if ord.len() > cap {
        let note = summary_line(prefix, is_last, (ord.len() - cap) as nat);
        assert(note.prefix.len() == prefix.len() + 4);
        let notes = seq![note];
        lemma_count_single(note, entry_at(prefix.len() + 8));
        lemma_count_single(note, note_at(prefix.len() + 4));
        lemma_count_single(note, entry_conn_at(prefix.len() + 8, true));
        lemma_count_single(note, entry_conn_at(prefix.len() + 8, false));
        lemma_count_concat(lbls + kids, notes, entry_at(prefix.len() + 8));
        lemma_count_concat(lbls + kids, notes, note_at(prefix.len() + 4));
        lemma_count_concat(lbls + kids, notes, entry_conn_at(prefix.len() + 8, true));
        lemma_count_concat(lbls + kids, notes, entry_conn_at(prefix.len() + 8, false));
        assert(r == lbls + kids + notes);
        assert(r.last() == note);
    } else {
        assert(r == lbls + kids);
    }
}

/// Hidden-filter law, withholding half: with hidden entries not requested,
/// no entry label of a render names a hidden entry. The rendered entry
/// itself must not be hidden — a listing never presents one. Summary notes
/// are not entry labels.
pub proof fn lemma_hidden_filter(n: FsNode, prefix: Seq<char>, is_last: bool, cap: nat)
    requires
        !is_hidden(n.spec_name()),
    ensures
        forall|i: int|
            0 <= i < render_node_spec(n, prefix, is_last, cap, false).len() ==> ((
            #[trigger] render_node_spec(n, prefix, is_last, cap, false)[i]).style != Style::Note
                ==> !is_hidden(render_node_spec(n, prefix, is_last, cap, false)[i].text)),
    decreases n, 1int, 0int,
{
    let r = render_node_spec(n, prefix, is_last, cap, false);
    let lbl = label_line(n, prefix, is_last);
    match n {
        FsNode::File { .. } => {},
        FsNode::Dir { children, .. } => {
            assert(children.len() == children@.len());
            lemma_ordered_props(children@, false);
            let ord = ordered_idxs(children@, false);
            let cp = prefix + segment(is_last);
            let kids = render_list_spec(children@, ord, 0, cap, false, cp);
            lemma_hidden_filter_list(children@, ord, 0, cap, cp);
            assert forall|i: int| 0 <= i < r.len() implies ((#[trigger] r[i]).style != Style::Note
                ==> !is_hidden(r[i].text)) by {
                if i == 0 {
                    assert(r[0] == lbl);
                } else if i < 1 + kids.len() {
                    assert(r[i] == kids[i - 1]);
                } else {
                    assert(r[i].style == Style::Note);
                }
            }
        },
    }
}

/// The listed children from position `k` on label no hidden entry when the
/// filter is on.
proof fn lemma_hidden_filter_list(
    children: Seq<FsNode>,
    ord: Seq<usize>,
    k: int,
    cap: nat,
    cp: Seq<char>,
)
    requires
        0 <= k <= shown_count(ord.len(), cap),
        forall|w: int|
            0 <= w < ord.len() ==> (#[trigger] ord[w] as int) < children.len() && keep(
                children[ord[w] as int],
                false,
            ),
    ensures
        forall|i: int|
            0 <= i < render_list_spec(children, ord, k, cap, false, cp).len() ==> ((
            #[trigger] render_list_spec(children, ord, k, cap, false, cp)[i]).style != Style::Note
                ==> !is_hidden(render_list_spec(children, ord, k, cap, false, cp)[i].text)),
    decreases children, 0int, shown_count(ord.len(), cap) - k,
{
    let shown = shown_count(ord.len(), cap) as int;
    let r = render_list_spec(children, ord, k, cap, false, cp);
    if k < shown {
        let child = children[ord[k] as int];
        let flag = child_is_last(k, ord.len() as int, cap as int);
        let head = render_node_spec(child, cp, flag, cap, false);
        let tail = render_list_spec(children, ord, k + 1, cap, false, cp);
        assert(r == head + tail);
        lemma_hidden_filter(child, cp, flag, cap);
        lemma_hidden_filter_list(children, ord, k + 1, cap, cp);
        assert forall|i: int| 0 <= i < r.len() implies ((#[trigger] r[i]).style != Style::Note
            ==> !is_hidden(r[i].text)) by {
            if i < head.len() {
                assert(r[i] == head[i]);
            } else {
                assert(r[i] == tail[i - head.len()]);
            }
        }
    }
}

/// Every child's position joins the filtered listing when hidden entries are
/// requested.
proof fn lemma_count_kept_all(children: Seq<FsNode>, n: nat)
    ensures
        count_kept(children, true, n) == n,
    decreases n,
{
    if n > 0 {
        lemma_count_kept_all(children, (n - 1) as nat);
    }
}

/// Hidden-filter law, admitting half: with hidden entries requested, every
/// child joins the listing — it holds one position per child — and ordering
/// and capping treat hidden entries exactly like the rest, the listing being
/// the same ordered selection over the full child sequence.
pub proof fn lemma_show_hidden_lists_all(children: Seq<FsNode>)
    requires
        children.len() <= usize::MAX,
    ensures
        ordered_idxs(children, true).len() == children.len(),
{
    lemma_ordered_props(children, true);
    lemma_count_kept_all(children, children.len());
}

/// The shape of indentations: `p` is `base` followed by whole four-column
/// segments, each the gap or the bar.
pub open spec fn seg_chain(base: Seq<char>, p: Seq<char>) -> bool
    decreases p.len(),
{
    ||| p == base
    ||| (p.len() >= base.len() + 4 && (p.subrange(p.len() - 4, p.len() as int)
        == crate::render::seg_gap() || p.subrange(p.len() - 4, p.len() as int)
        == crate::render::seg_bar()) && seg_chain(base, p.subrange(0, p.len() - 4)))
}

/// A line is shaped for `base` when its indentation is such a chain of
/// segments — one per recursion depth, the gap below an ancestor that was
/// last among its siblings, the bar below one that was not — closed by a
/// connector for an entry label, or by one more segment for a summary note.
pub open spec fn line_shaped(base: Seq<char>, l: LineView) -> bool {
    exists|q: Seq<char>, b: bool|
        seg_chain(base, q) && l.prefix == q + (if l.style == Style::Note {
            segment(b)
        } else {
            connector(b)
        })
}

/// One segment extends a chain.
proof fn lemma_chain_step(base: Seq<char>, b: bool)
    ensures
        seg_chain(base, base + segment(b)),
{
    let p = base + segment(b);
    assert(p.subrange(p.len() - 4, p.len() as int) =~= segment(b));
    assert(p.subrange(0, p.len() - 4) =~= base);
    assert(seg_chain(base, base));
    if b {
        assert(p.subrange(p.len() - 4, p.len() as int) == crate::render::seg_gap());
    } else {
        assert(p.subrange(p.len() - 4, p.len() as int) == crate::render::seg_bar());
    }
}

/// A chain never shrinks.
proof fn lemma_chain_len(a: Seq<char>, b: Seq<char>)
    requires
        seg_chain(a, b),
    ensures
        b.len() >= a.len(),
    decreases b.len(),
{
    if b != a {
        lemma_chain_len(a, b.subrange(0, b.len() - 4));
    }
}

/// Chains compose.
proof fn lemma_chain_trans(a: Seq<char>, b: Seq<char>, c: Seq<char>)
    requires
        seg_chain(a, b),
        seg_chain(b, c),
    ensures
        seg_chain(a, c),
    decreases c.len(),
{
    if c != b {
        lemma_chain_trans(a, b, c.subrange(0, c.len() - 4));
        lemma_chain_len(a, b);
    }
}

/// Prefix law: every line of a render is indented by the caller's prefix,
/// then one four-column segment per recursion depth below the rendered
/// entry — the gap under an ancestor that was last among its siblings, the
/// bar under one that was not — closed by a connector on an entry label and
/// by one further segment on a summary note.
pub proof fn lemma_prefix_shape(n: FsNode, prefix: Seq<char>, is_last: bool, cap: nat, sh: bool)
    ensures
        forall|i: int|
            0 <= i < render_node_spec(n, prefix, is_last, cap, sh).len() ==> line_shaped(
                prefix,
                #[trigger] render_node_spec(n, prefix, is_last, cap, sh)[i],
            ),
    decreases n, 1int, 0int,
{
    let r = render_node_spec(n, prefix, is_last, cap, sh);
    let lbl = label_line(n, prefix, is_last);
    assert(seg_chain(prefix, prefix));
    assert(style_of(n) != Style::Note);
    assert(line_shaped(prefix, lbl)) by {
        assert(seg_chain(prefix, prefix) && lbl.prefix == prefix + (if lbl.style == Style::Note {
            segment(is_last)
        } else {
            connector(is_last)
        }));
    }
    match n {
        FsNode::File { .. } => {
            assert forall|i: int| 0 <= i < r.len() implies line_shaped(
                prefix,
                #[trigger] r[i],
            ) by {
                assert(r[i] == lbl);
            }
        },
        FsNode::Dir { children, .. } => {
            assert(children.len() == children@.len());
            lemma_ordered_props(children@, sh);
            let ord = ordered_idxs(children@, sh);
            let cp = prefix + segment(is_last);
            let kids = render_list_spec(children@, ord, 0, cap, sh, cp);
            lemma_prefix_shape_list(children@, ord, 0, cap, sh, cp);
            lemma_chain_step(prefix, is_last);
            assert forall|i: int| 0 <= i < kids.len() implies line_shaped(
                prefix,
                #[trigger] kids[i],
            ) by {
                let (q, b): (Seq<char>, bool) = choose|q: Seq<char>, b: bool|
                    seg_chain(cp, q) && kids[i].prefix == q + (if kids[i].style == Style::Note {
                        segment(b)
                    } else {
                        connector(b)
                    });
                lemma_chain_trans(prefix, cp, q);
            }
            if ord.len() > cap {
                let note = summary_line(prefix, is_last, (ord.len() - cap) as nat);
                assert(line_shaped(prefix, note)) by {
                    assert(seg_chain(prefix, prefix) && note.prefix == prefix + (if note.style
                        == Style::Note {
                        segment(is_last)
                    } else {
                        connector(is_last)
                    }));
                }
                assert forall|i: int| 0 <= i < r.len() implies line_shaped(
                    prefix,
                    #[trigger] r[i],
                ) by {
                    if i == 0 {
                        assert(r[i] == lbl);
                    } else if i < 1 + kids.len() {
                        assert(r[i] == kids[i - 1]);
                    } else {
                        assert(r[i] == note);
                    }
                }
            } else {
                assert forall|i: int| 0 <= i < r.len() implies line_shaped(
                    prefix,
                    #[trigger] r[i],
                ) by {
                    if i == 0 {
                        assert(r[i] == lbl);
                    } else {
                        assert(r[i] == kids[i - 1]);
                    }
                }
            }
        },
    }
}

/// Every line the listed children contribute is shaped for the child prefix.
proof fn lemma_prefix_shape_list(
    children: Seq<FsNode>,
    ord: Seq<usize>,
    k: int,
    cap: nat,
    sh: bool,
    cp: Seq<char>,
)
    requires
        0 <= k <= shown_count(ord.len(), cap),
        forall|w: int| 0 <= w < ord.len() ==> (#[trigger] ord[w] as int) < children.len(),
    ensures
        forall|i: int|
            0 <= i < render_list_spec(children, ord, k, cap, sh, cp).len() ==> line_shaped(
                cp,
                #[trigger] render_list_spec(children, ord, k, cap, sh, cp)[i],
            ),
    decreases children, 0int, shown_count(ord.len(), cap) - k,
{
    let shown = shown_count(ord.len(), cap) as int;
    let r = render_list_spec(children, ord, k, cap, sh, cp);
    if k < shown {
        let child = children[ord[k] as int];
        let flag = child_is_last(k, ord.len() as int, cap as int);
        let head = render_node_spec(child, cp, flag, cap, sh);
        let tail = render_list_spec(children, ord, k + 1, cap, sh, cp);
        assert(r == head + tail);
        lemma_prefix_shape(child, cp, flag, cap, sh);
        lemma_prefix_shape_list(children, ord, k + 1, cap, sh, cp);
        assert forall|i: int| 0 <= i < r.len() implies line_shaped(cp, #[trigger] r[i]) by {
            if i < head.len() {
                assert(r[i] == head[i]);
            } else {
                assert(r[i] == tail[i - head.len()]);
            }
        }
    }
}

/// Idempotence law: rendering an unchanged tree twice, with unchanged
/// settings, yields identical lines — the render is a function of the tree
/// value and the settings alone.
pub proof fn lemma_render_deterministic(
    a: FsNode,
    b: FsNode,
    labeled: bool,
    cap: nat,
    sh: bool,
)
    requires
        a == b,
    ensures
        render_tree_spec(a, labeled, cap, sh) == render_tree_spec(b, labeled, cap, sh),
{
}

} // verus!
