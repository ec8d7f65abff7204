//! The tree renderer: styles, line structure, and the rendering itself.
//!
//! A render of a node is one labelled line, then — for a directory — the
//! renders of the children its listing presents, then a summary line when the
//! cap left some out. Each line carries the indentation built from the
//! ancestors' positions and a branch connector telling whether the entry is
//! the last one rendered among its siblings.

use vstd::prelude::*;
use vstd::string::StrSliceExecFns;
use vstd::string::StringExecFns;
use crate::FsNode;
use crate::order::str_eq;
use crate::select::ordered_idxs;
use crate::select::ordered_indices;

verus! {

/// Presentation class of a rendered line. Directories and files of known
/// extensions are distinguished so that a caller can paint them; `Note` marks
/// the summary line for entries omitted by the cap.
#[derive(Clone, Copy, PartialEq, Eq, Structural, Debug)]
pub enum Style {
    Directory,
    Rust,
    Text,
    Plain,
    Note,
}

/// The extension of an entry name: the part after the last `.`, provided
/// that dot is not the leading character. A name without such a dot has no
/// extension.
pub open spec fn ext_of(name: Seq<char>) -> Option<Seq<char>>
    decreases name.len(),
{
    if name.len() <= 1 {
        None
    } else if name.last() == '.' {
        Some(Seq::empty())
    } else {
        match ext_of(name.drop_last()) {
            Some(e) => Some(e.push(name.last())),
            None => None,
        }
    }
}

/// The style of an entry's label: directories distinguished, files styled
/// after their extension.
pub open spec fn style_of(n: FsNode) -> Style {
    if n is Dir {
        Style::Directory
    } else {
        match ext_of(n.spec_name()) {
            Some(e) => if e == "rs"@ {
                Style::Rust
            } else if e == "txt"@ {
                Style::Text
            } else {
                Style::Plain
            },
            None => Style::Plain,
        }
    }
}

/// One rendered line, as the specification sees it.
#[verifier::ext_equal]
pub struct LineView {
    pub prefix: Seq<char>,
    pub text: Seq<char>,
    pub style: Style,
}

/// One rendered line: the indentation (ancestor segments and connector),
/// the entry text, and its style. The caller prints `prefix` then `text`,
/// painting `text` after `style`.
pub struct Line {
    pub prefix: String,
    pub text: String,
    pub style: Style,
}

impl View for Line {
    type V = LineView;

    open spec fn view(&self) -> LineView {
        LineView { prefix: self.prefix@, text: self.text@, style: self.style }
    }
}

/// The views of a sequence of lines.
pub open spec fn views(s: Seq<Line>) -> Seq<LineView> {
    s.map_values(|l: Line| l@)
}

/// Connector drawn before the last rendered entry of a directory.
pub open spec fn conn_last() -> Seq<char> {
    seq!['└', '─', '─', ' ']
}

/// Connector drawn before every other entry.
pub open spec fn conn_mid() -> Seq<char> {
    seq!['├', '─', '─', ' ']
}

/// Indentation segment below an entry that was last among its siblings.
pub open spec fn seg_gap() -> Seq<char> {
    seq![' ', ' ', ' ', ' ']
}

/// Indentation segment below an entry with further siblings after it.
pub open spec fn seg_bar() -> Seq<char> {
    seq!['│', ' ', ' ', ' ']
}

/// The connector an entry gets from its position.
pub open spec fn connector(is_last: bool) -> Seq<char> {
    if is_last {
        conn_last()
    } else {
        conn_mid()
    }
}

/// The segment an entry passes to its descendants.
pub open spec fn segment(is_last: bool) -> Seq<char> {
    if is_last {
        seg_gap()
    } else {
        seg_bar()
    }
}

/// The decimal digit character for a value below ten.
pub open spec fn digit_char(d: nat) -> char
    recommends
        d < 10,
{
    if d == 0 {
        '0'
    } else if d == 1 {
        '1'
    } else if d == 2 {
        '2'
    } else if d == 3 {
        '3'
    } else if d == 4 {
        '4'
    } else if d == 5 {
        '5'
    } else if d == 6 {
        '6'
    } else if d == 7 {
        '7'
    } else if d == 8 {
        '8'
    } else {
        '9'
    }
}

/// The decimal notation of a number, most significant digit first.
pub open spec fn dec_digits(n: nat) -> Seq<char>
    decreases n,
{
    if n < 10 {
        seq![digit_char(n)]
    } else {
        dec_digits(n / 10).push(digit_char(n % 10))
    }
}

/// The text of the summary line for `omitted` entries beyond the cap.
pub open spec fn summary_text(omitted: nat) -> Seq<char> {
    seq!['.', '.', '.', ' ', '('] + dec_digits(omitted) + seq![
        ' ',
        'm',
        'o',
        'r',
        'e',
        ' ',
        'e',
        'n',
        't',
        'r',
        'i',
        'e',
        's',
        ')',
    ]
}

/// The labelled line of one entry.
pub open spec fn label_line(n: FsNode, prefix: Seq<char>, is_last: bool) -> LineView {
    LineView { prefix: prefix + connector(is_last), text: n.spec_name(), style: style_of(n) }
}

/// The summary line of a directory whose listing was cut off.
pub open spec fn summary_line(prefix: Seq<char>, is_last: bool, omitted: nat) -> LineView {
    LineView {
        prefix: prefix + segment(is_last),
        text: summary_text(omitted),
        style: Style::Note,
    }
}

/// How many children a directory with `total` listed children renders under
/// cap `cap`.
pub open spec fn shown_count(total: nat, cap: nat) -> nat {
    if total < cap {
        total
    } else {
        cap
    }
}

/// Whether the child at position `k` is drawn with the terminal connector:
/// it is the last one the cap admits, or the last one that exists.
pub open spec fn child_is_last(k: int, total: int, cap: int) -> bool {
    k == cap - 1 || k == total - 1
}

/// The lines of one entry's render: its label, then — for a directory — the
/// renders of the children the listing presents, then the summary of what the
/// cap left out.
pub open spec fn render_node_spec(
    n: FsNode,
    prefix: Seq<char>,
    is_last: bool,
    cap: nat,
    show_hidden: bool,
) -> Seq<LineView>
    decreases n, 1int, 0int,
{
    let lbl = seq![label_line(n, prefix, is_last)];
    match n {
        FsNode::File { .. } => lbl,
        FsNode::Dir { children, .. } => {
            let ord = ordered_idxs(children@, show_hidden);
            let cp = prefix + segment(is_last);
            let kids = render_list_spec(children@, ord, 0, cap, show_hidden, cp);
            if ord.len() > cap {
                lbl + kids + seq![summary_line(prefix, is_last, (ord.len() - cap) as nat)]
            } else {
                lbl + kids
            }
        },
    }
}

/// The renders of the listed children from position `k` on, up to the cap.
pub open spec fn render_list_spec(
    children: Seq<FsNode>,
    ord: Seq<usize>,
    k: int,
    cap: nat,
    show_hidden: bool,
    cp: Seq<char>,
) -> Seq<LineView>
    decreases children, 0int, shown_count(ord.len(), cap) - k,
{
    let shown = shown_count(ord.len(), cap) as int;
    if k < 0 || k >= shown {
        Seq::empty()
    } else if (ord[k] as int) < children.len() {
        render_node_spec(
            children[ord[k] as int],
            cp,
            child_is_last(k, ord.len() as int, cap as int),
            cap,
            show_hidden,
        ) + render_list_spec(children, ord, k + 1, cap, show_hidden, cp)
    } else {
        render_list_spec(children, ord, k + 1, cap, show_hidden, cp)
    }
}

/// The whole render of a tree. An unlabelled root — a path like `.` or `/`
/// with no final name component — contributes no line of its own; its
/// children are still rendered, below the root position, which counts as
/// last at its level.
pub open spec fn render_tree_spec(
    root: FsNode,
    labeled: bool,
    cap: nat,
    show_hidden: bool,
) -> Seq<LineView> {
    let full = render_node_spec(root, Seq::empty(), true, cap, show_hidden);
    if labeled {
        full
    } else {
        full.drop_first()
    }
}

/// The position of the last `.` in a name, a leading dot not counting;
/// nothing when the name has no such dot.
fn last_dot(name: &str) -> (r: Option<usize>)
    ensures
        r matches Some(p) ==> 1 <= p < name@.len() && name@[p as int] == '.' && (forall|q: int|
            p < q < name@.len() ==> name@[q] != '.'),
        r is None ==> forall|q: int| 1 <= q < name@.len() ==> name@[q] != '.',
{
    let len = name.unicode_len();
    let mut i: usize = len;
    while i > 1
        invariant
            i <= len,
            len == name@.len(),
            forall|q: int| i <= q < len ==> name@[q] != '.',
        decreases i,
    {
        i = i - 1;
        if name.get_char(i) == '.' {
            return Some(i);
        }
    }
    None
}

/// A name whose last dot stands at `p` has the part after `p` as extension.
proof fn lemma_ext_at(name: Seq<char>, p: int)
    requires
        1 <= p < name.len(),
        name[p] == '.',
        forall|q: int| p < q < name.len() ==> name[q] != '.',
    ensures
        ext_of(name) == Some(name.subrange(p + 1, name.len() as int)),
    decreases name.len(),
{
    if p == name.len() - 1 {
        assert(name.subrange(p + 1, name.len() as int) =~= Seq::<char>::empty());
    } else {
        assert(name.last() != '.');
        assert forall|q: int| p < q < name.drop_last().len() implies name.drop_last()[q]
            != '.' by {
            assert(name.drop_last()[q] == name[q]);
        }
        assert(name.drop_last()[p] == name[p]);
        lemma_ext_at(name.drop_last(), p);
        assert(name.drop_last().subrange(p + 1, name.len() - 1).push(name.last())
            =~= name.subrange(p + 1, name.len() as int));
    }
}

/// A name without a dot past its first character has no extension.
proof fn lemma_ext_none(name: Seq<char>)
    requires
        forall|q: int| 1 <= q < name.len() ==> name[q] != '.',
    ensures
        ext_of(name) is None,
    decreases name.len(),
{
    if name.len() > 1 {
        assert(name.last() != '.');
        assert forall|q: int| 1 <= q < name.drop_last().len() implies name.drop_last()[q]
            != '.' by {
            assert(name.drop_last()[q] == name[q]);
        }
        lemma_ext_none(name.drop_last());
    }
}

/// The style of an entry's label.
pub fn style_of_entry(n: &FsNode) -> (s: Style)
    ensures
        s == style_of(*n),
{
    match n {
        FsNode::Dir { .. } => Style::Directory,
        FsNode::File { name } => {
            match last_dot(name.as_str()) {
                None => {
                    proof {
                        lemma_ext_none(name@);
                    }
                    Style::Plain
                },
                Some(p) => {
                    proof {
                        lemma_ext_at(name@, p as int);
                    }
                    let len = name.as_str().unicode_len();
                    let ext = name.as_str().substring_char(p + 1, len);
                    if str_eq(ext, "rs") {
                        Style::Rust
                    } else if str_eq(ext, "txt") {
                        Style::Text
                    } else {
                        Style::Plain
                    }
                },
            }
        },
    }
}

/// The connector as a string.
fn connector_str(is_last: bool) -> (r: &'static str)
    ensures
        r@ == connector(is_last),
{
    if is_last {
        let s = "└── ";
        proof {
            reveal_strlit("└── ");
            assert(s@ =~= conn_last());
        }
        s
    } else {
        let s = "├── ";
        proof {
            reveal_strlit("├── ");
            assert(s@ =~= conn_mid());
        }
        s
    }
}

/// The indentation segment as a string.
fn segment_str(is_last: bool) -> (r: &'static str)
    ensures
        r@ == segment(is_last),
{
    if is_last {
        let s = "    ";
        proof {
            reveal_strlit("    ");
            assert(s@ =~= seg_gap());
        }
        s
    } else {
        let s = "│   ";
        proof {
            reveal_strlit("│   ");
            assert(s@ =~= seg_bar());
        }
        s
    }
}

/// The digit character of a value below ten, as a string.
fn digit_str(d: usize) -> (r: &'static str)
    requires
        d < 10,
    ensures
        r@ == seq![digit_char(d as nat)],
{
    if d == 0 {
        let s = "0";
        proof {
            reveal_strlit("0");
            assert(s@ =~= seq![digit_char(0)]);
        }
        s
    } else if d == 1 {
        let s = "1";
        proof {
            reveal_strlit("1");
            assert(s@ =~= seq![digit_char(1)]);
        }
        s
    } else if d == 2 {
        let s = "2";
        proof {
            reveal_strlit("2");
            assert(s@ =~= seq![digit_char(2)]);
        }
        s
    } else if d == 3 {
        let s = "3";
        proof {
            reveal_strlit("3");
            assert(s@ =~= seq![digit_char(3)]);
        }
        s
    } else if d == 4 {
        let s = "4";
        proof {
            reveal_strlit("4");
            assert(s@ =~= seq![digit_char(4)]);
        }
        s
    } else if d == 5 {
        let s = "5";
        proof {
            reveal_strlit("5");
            assert(s@ =~= seq![digit_char(5)]);
        }
        s
    } else if d == 6 {
        let s = "6";
        proof {
            reveal_strlit("6");
            assert(s@ =~= seq![digit_char(6)]);
        }
        s
    } else if d == 7 {
        let s = "7";
        proof {
            reveal_strlit("7");
            assert(s@ =~= seq![digit_char(7)]);
        }
        s
    } else if d == 8 {
        let s = "8";
        proof {
            reveal_strlit("8");
            assert(s@ =~= seq![digit_char(8)]);
        }
        s
    } else {
        let s = "9";
        proof {
            reveal_strlit("9");
            assert(s@ =~= seq![digit_char(9)]);
        }
        s
    }
}

/// Appends the decimal notation of `n`.
fn push_digits(s: &mut String, n: usize)
    ensures
        final(s)@ == old(s)@ + dec_digits(n as nat),
    decreases n,
{
    if n < 10 {
        s.append(digit_str(n));
    } else {
        push_digits(s, n / 10);
        s.append(digit_str(n % 10));
        proof {
            assert(old(s)@ + dec_digits((n / 10) as nat) + seq![digit_char((n % 10) as nat)]
                =~= old(s)@ + dec_digits(n as nat));
        }
    }
}

/// The text of the summary line for `omitted` entries beyond the cap.
fn summary_string(omitted: usize) -> (r: String)
    ensures
        r@ == summary_text(omitted as nat),
{
    let mut s = String::from_str("... (");
    proof {
        reveal_strlit("... (");
        assert(s@ =~= seq!['.', '.', '.', ' ', '(']);
    }
    push_digits(&mut s, omitted);
    s.append(" more entries)");
    proof {
        reveal_strlit(" more entries)");
        assert(s@ =~= summary_text(omitted as nat));
    }
    s
}

/// Renders one entry, appending its lines: the label, then — for a directory
/// — the listed children up to the cap, then the summary of what the cap left
/// out.
#[verifier::loop_isolation(false)]
pub fn render_node(
    n: &FsNode,
    prefix: &String,
    is_last: bool,
    cap: usize,
    show_hidden: bool,
    out: &mut Vec<Line>,
)
    ensures
        views(final(out)@) == views(old(out)@) + render_node_spec(
            *n,
            prefix@,
            is_last,
            cap as nat,
            show_hidden,
        ),
    decreases *n,
{
    let ghost base = views(out@);
    let conn = connector_str(is_last);
    let mut lp = prefix.clone();
    lp.append(conn);
    let st = style_of_entry(n);
    let nm = n.name().clone();
    out.push(Line { prefix: lp, text: nm, style: st });
    let ghost lbl = seq![label_line(*n, prefix@, is_last)];
    proof {
        assert(views(out@) =~~= base + lbl);
    }
    match n {
        FsNode::File { .. } => {
            proof {
                assert(views(out@) =~~= base + render_node_spec(
                    *n,
                    prefix@,
                    is_last,
                    cap as nat,
                    show_hidden,
                ));
            }
        },
        FsNode::Dir { children, .. } => {
            let seg = segment_str(is_last);
            let mut cp = prefix.clone();
            cp.append(seg);
            let ord = ordered_indices(children, show_hidden);
            let total = ord.len();
            let shown = if total < cap {
                total
            } else {
                cap
            };
            let mut k: usize = 0;
            while k < shown
                invariant
                    k <= shown,
                    shown == shown_count(ord@.len(), cap as nat),
                    ord@ == ordered_idxs(children@, show_hidden),
                    forall|w: int|
                        0 <= w < ord@.len() ==> (#[trigger] ord@[w]) < children@.len(),
                    total == ord@.len(),
                    cp@ == prefix@ + segment(is_last),
                    views(out@) + render_list_spec(
                        children@,
                        ord@,
                        k as int,
                        cap as nat,
                        show_hidden,
                        cp@,
                    ) == base + lbl + render_list_spec(
                        children@,
                        ord@,
                        0,
                        cap as nat,
                        show_hidden,
                        cp@,
                    ),
                decreases shown - k,
            {
                let child_last = (cap >= 1 && k == cap - 1) || k == total - 1;
                proof {
                    assert(child_last == child_is_last(k as int, total as int, cap as int));
                }
                let ghost before = views(out@);
                let ci = ord[k];
                proof {
                    assert(n->Dir_children == *children);
                    assert(decreases_to!(*n => *children));
                    assert(decreases_to!(*children => children@));
                    assert(decreases_to!(children@ => children@[ci as int]));
                    assert(decreases_to!(*n => children@[ci as int]));
                }
                render_node(&children[ci], &cp, child_last, cap, show_hidden, out);
                proof {
                    assert(render_list_spec(
                        children@,
                        ord@,
                        k as int,
                        cap as nat,
                        show_hidden,
                        cp@,
                    ) == render_node_spec(
                        children@[ci as int],
                        cp@,
                        child_is_last(k as int, total as int, cap as int),
                        cap as nat,
                        show_hidden,
                    ) + render_list_spec(
                        children@,
                        ord@,
                        k as int + 1,
                        cap as nat,
                        show_hidden,
                        cp@,
                    ));
                    assert(views(out@) + render_list_spec(
                        children@,
                        ord@,
                        k as int + 1,
                        cap as nat,
                        show_hidden,
                        cp@,
                    ) =~~= base + lbl + render_list_spec(
                        children@,
                        ord@,
                        0,
                        cap as nat,
                        show_hidden,
                        cp@,
                    ));
                }
                k = k + 1;
            }
            proof {
                assert(render_list_spec(
                    children@,
                    ord@,
                    shown as int,
                    cap as nat,
                    show_hidden,
                    cp@,
                ) =~= Seq::<LineView>::empty());
                assert(views(out@) =~~= base + lbl + render_list_spec(
                    children@,
                    ord@,
                    0,
                    cap as nat,
                    show_hidden,
                    cp@,
                ));
            }
            if total > cap {
                let sp = cp.clone();
                let txt = summary_string(total - cap);
                out.push(Line { prefix: sp, text: txt, style: Style::Note });
                proof {
                    assert(views(out@) =~~= (base + lbl + render_list_spec(
                        children@,
                        ord@,
                        0,
                        cap as nat,
                        show_hidden,
                        cp@,
                    )).push(summary_line(prefix@, is_last, (total - cap) as nat)));
                    assert(views(out@) =~~= base + render_node_spec(
                        *n,
                        prefix@,
                        is_last,
                        cap as nat,
                        show_hidden,
                    ));
                }
            } else {
                proof {
                    assert(views(out@) =~~= base + render_node_spec(
                        *n,
                        prefix@,
                        is_last,
                        cap as nat,
                        show_hidden,
                    ));
                }
            }
        },
    }
}

/// Renders a whole tree. With `labeled` false — a root path such as `.` or
/// `/`, which has no final name component — the root's own label line is
/// withheld and only its children and summary appear.
pub fn render_tree(root: &FsNode, labeled: bool, cap: usize, show_hidden: bool) -> (out: Vec<
    Line,
>)
    ensures
        views(out@) == render_tree_spec(*root, labeled, cap as nat, show_hidden),
{
    let mut out: Vec<Line> = Vec::new();
    let empty = String::new();
    proof {
        assert(views(out@) =~= Seq::<LineView>::empty());
    }
    render_node(root, &empty, true, cap, show_hidden, &mut out);
    let ghost full = render_node_spec(*root, Seq::empty(), true, cap as nat, show_hidden);
    proof {
        assert(views(out@) =~~= full);
        assert(full.len() >= 1);
    }
    if !labeled {
        out.remove(0);
        proof {
            assert(views(out@) =~~= full.drop_first());
        }
    }
    out
}

impl Line {
    /// The full text of the line: indentation, then the entry text.
    pub fn rendered(&self) -> (r: String)
        ensures
            r@ == self@.prefix + self@.text,
    {
        let mut s = self.prefix.clone();
        s.append(self.text.as_str());
        s
    }
}

} // verus!
