//! Selection of a directory's children for listing: the hidden-entry filter
//! and the lexical ordering of the remaining entries.
//!
//! The selection is described by a sequence of indices into the child vector:
//! first the indices the filter keeps, in position order, then that sequence
//! sorted so that the children's names ascend. Ties between equal names are
//! broken by position, which makes the order on indices total.

use vstd::prelude::*;
use crate::FsNode;
use crate::order::lex_lt;
use crate::order::str_lex_lt;
use crate::order::lemma_lex_lt_connected;
use crate::order::lemma_lex_lt_transitive;

verus! {

/// A name is hidden when it starts with `.`.
pub open spec fn is_hidden(name: Seq<char>) -> bool {
    name.len() > 0 && name[0] == '.'
}

/// Whether an entry is listed under the given hidden-entry setting.
pub open spec fn keep(n: FsNode, show_hidden: bool) -> bool {
    show_hidden || !is_hidden(n.spec_name())
}

/// How many of the first `n` children the filter keeps.
pub open spec fn count_kept(children: Seq<FsNode>, show_hidden: bool, n: nat) -> nat
    decreases n,
{
    if n == 0 {
        0
    } else {
        count_kept(children, show_hidden, (n - 1) as nat) + if keep(
            children[n - 1],
            show_hidden,
        ) {
            1nat
        } else {
            0nat
        }
    }
}

/// The indices below `n` of the children the filter keeps, in position order.
pub open spec fn visible_idxs(children: Seq<FsNode>, show_hidden: bool, n: nat) -> Seq<usize>
    decreases n,
{
    if n == 0 {
        Seq::empty()
    } else {
        let rest = visible_idxs(children, show_hidden, (n - 1) as nat);
        if keep(children[n - 1], show_hidden) {
            rest.push((n - 1) as usize)
        } else {
            rest
        }
    }
}

/// Order on child positions: by name, ties broken by position. A total order.
pub open spec fn idx_le(children: Seq<FsNode>, i: usize, j: usize) -> bool {
    ||| lex_lt(children[i as int].spec_name(), children[j as int].spec_name())
    ||| (children[i as int].spec_name() == children[j as int].spec_name() && i <= j)
}

/// The index sequence ascends under [`idx_le`].
pub open spec fn idx_sorted(children: Seq<FsNode>, s: Seq<usize>) -> bool {
    forall|p: int, q: int| 0 <= p < q < s.len() ==> idx_le(children, s[p], s[q])
}

/// Insertion of one index into an index sequence sorted under [`idx_le`].
pub open spec fn insert_idx(children: Seq<FsNode>, s: Seq<usize>, x: usize) -> Seq<usize>
    decreases s.len(),
{
    if s.len() == 0 {
        seq![x]
    } else if idx_le(children, x, s[0]) {
        seq![x] + s
    } else {
        seq![s[0]] + insert_idx(children, s.skip(1), x)
    }
}

/// Insertion sort of an index sequence under [`idx_le`].
pub open spec fn sort_idxs(children: Seq<FsNode>, s: Seq<usize>) -> Seq<usize>
    decreases s.len(),
{
    if s.len() == 0 {
        Seq::empty()
    } else {
        insert_idx(children, sort_idxs(children, s.drop_last()), s.last())
    }
}

/// The positions of the children that a directory listing presents, in the
/// order it presents them: filtered, then sorted by name.
pub open spec fn ordered_idxs(children: Seq<FsNode>, show_hidden: bool) -> Seq<usize> {
    sort_idxs(children, visible_idxs(children, show_hidden, children.len()))
}

/// The order on positions is total.
pub proof fn lemma_idx_le_total(children: Seq<FsNode>, i: usize, j: usize)
    ensures
        idx_le(children, i, j) || idx_le(children, j, i),
{
    let a = children[i as int].spec_name();
    let b = children[j as int].spec_name();
    if !lex_lt(a, b) && !lex_lt(b, a) {
        lemma_lex_lt_connected(a, b);
    }
}

/// The order on positions is transitive.
pub proof fn lemma_idx_le_trans(children: Seq<FsNode>, i: usize, j: usize, k: usize)
    requires
        idx_le(children, i, j),
        idx_le(children, j, k),
    ensures
        idx_le(children, i, k),
{
    let a = children[i as int].spec_name();
    let b = children[j as int].spec_name();
    let c = children[k as int].spec_name();
    if lex_lt(a, b) && lex_lt(b, c) {
        lemma_lex_lt_transitive(a, b, c);
    }
}

/// What the filter produces: as many indices as entries kept, each below `n`,
/// in strictly ascending position order, pointing at kept entries; and every
/// kept position occurs.
pub proof fn lemma_visible_props(children: Seq<FsNode>, show_hidden: bool, n: nat)
    requires
        n <= usize::MAX,
    ensures
        visible_idxs(children, show_hidden, n).len() == count_kept(children, show_hidden, n),
        forall|k: int|
            0 <= k < visible_idxs(children, show_hidden, n).len() ==> (
            #[trigger] visible_idxs(children, show_hidden, n)[k]) < n && keep(
                children[visible_idxs(children, show_hidden, n)[k] as int],
                show_hidden,
            ),
        forall|p: int, q: int|
            0 <= p < q < visible_idxs(children, show_hidden, n).len()
                ==> #[trigger] visible_idxs(children, show_hidden, n)[p]
                < #[trigger] visible_idxs(children, show_hidden, n)[q],
        forall|i: int|
            0 <= i < n && keep(#[trigger] children[i], show_hidden) ==> visible_idxs(
                children,
                show_hidden,
                n,
            ).contains(i as usize),
    decreases n,
{
    if n > 0 {
        lemma_visible_props(children, show_hidden, (n - 1) as nat);
        let rest = visible_idxs(children, show_hidden, (n - 1) as nat);
        let v = visible_idxs(children, show_hidden, n);
        if keep(children[n - 1], show_hidden) {
            assert forall|p: int, q: int| 0 <= p < q < v.len() implies #[trigger] v[p]
                < #[trigger] v[q] by {
                if q < v.len() - 1 {
                    assert(v[p] == rest[p] && v[q] == rest[q]);
                } else {
                    assert(v[q] == (n - 1) as usize);
                    assert(v[p] == rest[p]);
                    assert(rest[p] < n - 1);
                }
            }
            assert forall|i: int|
                0 <= i < n && keep(#[trigger] children[i], show_hidden) implies v.contains(
                i as usize,
            ) by {
                if i < n - 1 {
                    let w = choose|w: int| 0 <= w < rest.len() && rest[w] == i as usize;
                    assert(v[w] == i as usize);
                } else {
                    assert(v[v.len() - 1] == i as usize);
                }
            }
        } else {
            assert forall|i: int|
                0 <= i < n && keep(#[trigger] children[i], show_hidden) implies v.contains(
                i as usize,
            ) by {
                let w = choose|w: int| 0 <= w < rest.len() && rest[w] == i as usize;
                assert(v[w] == i as usize);
            }
        }
    }
}

/// What insertion produces: one element longer, holding exactly the old
/// elements and the new one, sorted if the input was, without duplicates if
/// the input was and lacked the new element.
pub proof fn lemma_insert_idx_props(children: Seq<FsNode>, s: Seq<usize>, x: usize)
    ensures
        insert_idx(children, s, x).len() == s.len() + 1,
        forall|y: usize|
            #[trigger] insert_idx(children, s, x).contains(y) ==> y == x || s.contains(y),
        forall|y: usize| #[trigger] s.contains(y) ==> insert_idx(children, s, x).contains(y),
        insert_idx(children, s, x).contains(x),
        s.no_duplicates() && !s.contains(x) ==> insert_idx(children, s, x).no_duplicates(),
        idx_sorted(children, s) ==> idx_sorted(children, insert_idx(children, s, x)),
    decreases s.len(),
{
    let r = insert_idx(children, s, x);
    if s.len() == 0 {
        assert(r[0] == x);
        assert forall|y: usize| #[trigger] r.contains(y) implies y == x || s.contains(y) by {
            let w = choose|w: int| 0 <= w < r.len() && r[w] == y;
            assert(w == 0);
        }
    } else if idx_le(children, x, s[0]) {
        assert(r == seq![x] + s);
        assert(r[0] == x);
        assert forall|y: usize| #[trigger] r.contains(y) implies y == x || s.contains(y) by {
            let w = choose|w: int| 0 <= w < r.len() && r[w] == y;
            if w > 0 {
                assert(s[w - 1] == y);
            }
        }
        assert forall|y: usize| #[trigger] s.contains(y) implies r.contains(y) by {
            let w = choose|w: int| 0 <= w < s.len() && s[w] == y;
            assert(r[w + 1] == y);
        }
        if idx_sorted(children, s) {
            assert forall|p: int, q: int| 0 <= p < q < r.len() implies idx_le(
                children,
                r[p],
                r[q],
            ) by {
                if p == 0 {
                    if q == 1 {
                        assert(r[q] == s[0]);
                    } else {
                        assert(r[q] == s[q - 1]);
                        assert(idx_le(children, s[0], s[q - 1]));
                        lemma_idx_le_trans(children, x, s[0], s[q - 1]);
                    }
                } else {
                    assert(r[p] == s[p - 1] && r[q] == s[q - 1]);
                }
            }
        }
    } else {
        let rest = insert_idx(children, s.skip(1), x);
        lemma_insert_idx_props(children, s.skip(1), x);
        assert(r == seq![s[0]] + rest);
        assert forall|y: usize| #[trigger] r.contains(y) implies y == x || s.contains(y) by {
            let w = choose|w: int| 0 <= w < r.len() && r[w] == y;
            if w == 0 {
                assert(s[0] == y);
            } else {
                assert(rest[w - 1] == y);
                assert(rest.contains(y));
                if y != x {
                    assert(s.skip(1).contains(y));
                    let u = choose|u: int| 0 <= u < s.skip(1).len() && s.skip(1)[u] == y;
                    assert(s[u + 1] == y);
                }
            }
        }
        assert forall|y: usize| #[trigger] s.contains(y) implies r.contains(y) by {
            let w = choose|w: int| 0 <= w < s.len() && s[w] == y;
            if w == 0 {
                assert(r[0] == y);
            } else {
                assert(s.skip(1)[w - 1] == y);
                assert(s.skip(1).contains(y));
                assert(rest.contains(y));
                let u = choose|u: int| 0 <= u < rest.len() && rest[u] == y;
                assert(r[u + 1] == y);
            }
        }
        assert(r.contains(x)) by {
            assert(rest.contains(x));
            let u = choose|u: int| 0 <= u < rest.len() && rest[u] == x;
            assert(r[u + 1] == x);
        }
        if s.no_duplicates() && !s.contains(x) {
            assert(s.skip(1).no_duplicates());
            assert(!s.skip(1).contains(x)) by {
                if s.skip(1).contains(x) {
                    let w = choose|w: int| 0 <= w < s.skip(1).len() && s.skip(1)[w] == x;
                    assert(s[w + 1] == x);
                }
            }
            assert(!rest.contains(s[0])) by {
                if rest.contains(s[0]) {
                    if s[0] != x {
                        assert(s.skip(1).contains(s[0]));
                        let w = choose|w: int|
                            0 <= w < s.skip(1).len() && s.skip(1)[w] == s[0];
                        assert(s[w + 1] == s[0]);
                    } else {
                        assert(s.contains(x));
                    }
                }
            }
            assert forall|p: int, q: int|
                0 <= p < r.len() && 0 <= q < r.len() && p != q implies r[p] != r[q] by {
                if p != 0 && q != 0 {
                    assert(r[p] == rest[p - 1] && r[q] == rest[q - 1]);
                } else if p == 0 {
                    assert(r[q] == rest[q - 1]);
                    assert(rest.contains(rest[q - 1]));
                } else {
                    assert(r[p] == rest[p - 1]);
                    assert(rest.contains(rest[p - 1]));
                }
            }
        }
        if idx_sorted(children, s) {
            assert(idx_sorted(children, s.skip(1))) by {
                assert forall|p: int, q: int|
                    0 <= p < q < s.skip(1).len() implies idx_le(
                    children,
                    s.skip(1)[p],
                    s.skip(1)[q],
                ) by {
                    assert(s.skip(1)[p] == s[p + 1] && s.skip(1)[q] == s[q + 1]);
                    assert(idx_le(children, s[p + 1], s[q + 1]));
                }
            }
            lemma_idx_le_total(children, x, s[0]);
            assert forall|p: int, q: int| 0 <= p < q < r.len() implies idx_le(
                children,
                r[p],
                r[q],
            ) by {
                if p == 0 {
                    assert(r[q] == rest[q - 1]);
                    assert(rest.contains(rest[q - 1]));
                    if rest[q - 1] == x {
                        assert(idx_le(children, s[0], x));
                    } else {
                        assert(s.skip(1).contains(rest[q - 1]));
                        let u = choose|u: int|
                            0 <= u < s.skip(1).len() && s.skip(1)[u] == rest[q - 1];
                        assert(s[u + 1] == rest[q - 1]);
                        assert(idx_le(children, s[0], s[u + 1]));
                    }
                } else {
                    assert(r[p] == rest[p - 1] && r[q] == rest[q - 1]);
                }
            }
        }
    }
}

/// What sorting produces: the same elements, in ascending order, duplicates
/// neither made nor lost.
pub proof fn lemma_sort_idxs_props(children: Seq<FsNode>, s: Seq<usize>)
    ensures
        sort_idxs(children, s).len() == s.len(),
        forall|y: usize| #[trigger] sort_idxs(children, s).contains(y) ==> s.contains(y),
        forall|y: usize| #[trigger] s.contains(y) ==> sort_idxs(children, s).contains(y),
        s.no_duplicates() ==> sort_idxs(children, s).no_duplicates(),
        idx_sorted(children, sort_idxs(children, s)),
    decreases s.len(),
{
    let r = sort_idxs(children, s);
    if s.len() > 0 {
        let head = sort_idxs(children, s.drop_last());
        lemma_sort_idxs_props(children, s.drop_last());
        lemma_insert_idx_props(children, head, s.last());
        assert forall|y: usize| #[trigger] r.contains(y) implies s.contains(y) by {
            if y == s.last() {
                assert(s[s.len() - 1] == y);
            } else {
                assert(head.contains(y));
                assert(s.drop_last().contains(y));
                let w = choose|w: int| 0 <= w < s.drop_last().len() && s.drop_last()[w] == y;
                assert(s[w] == y);
            }
        }
        assert forall|y: usize| #[trigger] s.contains(y) implies r.contains(y) by {
            let w = choose|w: int| 0 <= w < s.len() && s[w] == y;
            if w == s.len() - 1 {
                assert(y == s.last());
                assert(r.contains(s.last()));
            } else {
                assert(s.drop_last()[w] == y);
                assert(s.drop_last().contains(y));
                assert(head.contains(y));
            }
        }
        if s.no_duplicates() {
            assert(s.drop_last().no_duplicates());
            assert(!head.contains(s.last())) by {
                if head.contains(s.last()) {
                    assert(s.drop_last().contains(s.last()));
                    let w = choose|w: int|
                        0 <= w < s.drop_last().len() && s.drop_last()[w] == s.last();
                    assert(s[w] == s[s.len() - 1]);
                }
            }
        }
    }
}

/// The listing order of a directory's children: every index points at a kept
/// child, the names ascend, no index repeats, and there are as many indices
/// as kept children.
pub proof fn lemma_ordered_props(children: Seq<FsNode>, show_hidden: bool)
    requires
        children.len() <= usize::MAX,
    ensures
        ordered_idxs(children, show_hidden).len() == count_kept(
            children,
            show_hidden,
            children.len(),
        ),
        forall|k: int|
            0 <= k < ordered_idxs(children, show_hidden).len() ==> (#[trigger] ordered_idxs(
                children,
                show_hidden,
            )[k]) < children.len() && keep(
                children[ordered_idxs(children, show_hidden)[k] as int],
                show_hidden,
            ),
        idx_sorted(children, ordered_idxs(children, show_hidden)),
        ordered_idxs(children, show_hidden).no_duplicates(),
        forall|i: int|
            0 <= i < children.len() && keep(#[trigger] children[i], show_hidden) ==> ordered_idxs(
                children,
                show_hidden,
            ).contains(i as usize),
{
    let v = visible_idxs(children, show_hidden, children.len());
    let r = ordered_idxs(children, show_hidden);
    lemma_visible_props(children, show_hidden, children.len());
    lemma_sort_idxs_props(children, v);
    assert(v.no_duplicates());
    assert forall|k: int|
        0 <= k < r.len() implies (#[trigger] r[k]) < children.len() && keep(
        children[r[k] as int],
        show_hidden,
    ) by {
        assert(r.contains(r[k]));
        assert(v.contains(r[k]));
        let w = choose|w: int| 0 <= w < v.len() && v[w] == r[k];
    }
}

/// Inserting `x` before the first element it precedes is what [`insert_idx`]
/// describes.
proof fn lemma_insert_at_pos(children: Seq<FsNode>, s: Seq<usize>, x: usize, p: int)
    requires
        0 <= p <= s.len(),
        forall|k: int| 0 <= k < p ==> !idx_le(children, x, #[trigger] s[k]),
        p < s.len() ==> idx_le(children, x, s[p]),
    ensures
        insert_idx(children, s, x) == s.insert(p, x),
    decreases p,
{
    if s.len() == 0 {
        assert(insert_idx(children, s, x) =~= s.insert(0, x));
    } else if p == 0 {
        assert(insert_idx(children, s, x) =~= s.insert(0, x));
    } else {
        assert(!idx_le(children, x, s[0]));
        assert forall|k: int| 0 <= k < p - 1 implies !idx_le(
            children,
            x,
            #[trigger] s.skip(1)[k],
        ) by {
            assert(s.skip(1)[k] == s[k + 1]);
        }
        if p - 1 < s.skip(1).len() {
            assert(s.skip(1)[p - 1] == s[p]);
        }
        lemma_insert_at_pos(children, s.skip(1), x, p - 1);
        assert(insert_idx(children, s, x) =~= s.insert(p, x)) by {
            assert(insert_idx(children, s, x) == seq![s[0]] + s.skip(1).insert(p - 1, x));
            assert forall|w: int| 0 <= w < s.insert(p, x).len() implies (seq![s[0]] + s.skip(
                1,
            ).insert(p - 1, x))[w] == s.insert(p, x)[w] by {
                if w > 0 {
                    assert((seq![s[0]] + s.skip(1).insert(p - 1, x))[w] == s.skip(1).insert(
                        p - 1,
                        x,
                    )[w - 1]);
                }
            }
        }
    }
}

/// Decides [`idx_le`] on two valid child positions.
fn idx_le_exec(children: &Vec<FsNode>, i: usize, j: usize) -> (r: bool)
    requires
        i < children@.len(),
        j < children@.len(),
    ensures
        r == idx_le(children@, i, j),
{
    let a = children[i].name();
    let b = children[j].name();
    if str_lex_lt(a.as_str(), b.as_str()) {
        true
    } else if str_lex_lt(b.as_str(), a.as_str()) {
        false
    } else {
        proof {
            lemma_lex_lt_connected(a@, b@);
        }
        i <= j
    }
}

/// The position in a sorted index sequence before the first element that `x`
/// precedes; the sequence's length when `x` precedes none.
fn find_pos(children: &Vec<FsNode>, ord: &Vec<usize>, x: usize) -> (p: usize)
    requires
        x < children@.len(),
        forall|k: int| 0 <= k < ord@.len() ==> (#[trigger] ord@[k]) < children@.len(),
    ensures
        p <= ord@.len(),
        forall|k: int| 0 <= k < p ==> !idx_le(children@, x, #[trigger] ord@[k]),
        p < ord@.len() ==> idx_le(children@, x, ord@[p as int]),
{
    let mut p: usize = 0;
    while p < ord.len()
        invariant
            p <= ord@.len(),
            x < children@.len(),
            forall|k: int| 0 <= k < ord@.len() ==> (#[trigger] ord@[k]) < children@.len(),
            forall|k: int| 0 <= k < p ==> !idx_le(children@, x, #[trigger] ord@[k]),
        decreases ord@.len() - p,
    {
        if idx_le_exec(children, x, ord[p]) {
            return p;
        }
        p = p + 1;
    }
    p
}

/// Inserts a child position into the sorted listing order.
fn insert_index(children: &Vec<FsNode>, ord: &mut Vec<usize>, x: usize)
    requires
        x < children@.len(),
        forall|k: int| 0 <= k < old(ord)@.len() ==> (#[trigger] old(ord)@[k]) < children@.len(),
    ensures
        final(ord)@ == insert_idx(children@, old(ord)@, x),
{
    let p = find_pos(children, ord, x);
    proof {
        lemma_insert_at_pos(children@, ord@, x, p as int);
    }
    ord.insert(p, x);
}

/// The positions of the children that the listing presents, in order:
/// hidden entries dropped unless requested, the rest sorted by name.
pub fn ordered_indices(children: &Vec<FsNode>, show_hidden: bool) -> (ord: Vec<usize>)
    ensures
        ord@ == ordered_idxs(children@, show_hidden),
        forall|k: int| 0 <= k < ord@.len() ==> (#[trigger] ord@[k]) < children@.len(),
{
    let n = children.len();
    let mut vis: Vec<usize> = Vec::new();
    let mut i: usize = 0;
    while i < n
        invariant
            i <= n,
            n == children@.len(),
            vis@ == visible_idxs(children@, show_hidden, i as nat),
            forall|k: int| 0 <= k < vis@.len() ==> (#[trigger] vis@[k]) < children@.len(),
        decreases n - i,
    {
        let keep_it: bool = if show_hidden {
            true
        } else {
            let name = children[i].name().as_str();
            if name.unicode_len() == 0 {
                true
            } else {
                name.get_char(0) != '.'
            }
        };
        assert(keep_it == keep(children@[i as int], show_hidden));
        if keep_it {
            vis.push(i);
        }
        i = i + 1;
    }
    let mut ord: Vec<usize> = Vec::new();
    let mut k: usize = 0;
    while k < vis.len()
        invariant
            k <= vis@.len(),
            n == children@.len(),
            ord@ == sort_idxs(children@, vis@.take(k as int)),
            forall|w: int| 0 <= w < vis@.len() ==> (#[trigger] vis@[w]) < children@.len(),
            forall|w: int| 0 <= w < ord@.len() ==> (#[trigger] ord@[w]) < children@.len(),
        decreases vis@.len() - k,
    {
        let x = vis[k];
        let ghost prev = ord@;
        insert_index(children, &mut ord, x);
        proof {
            lemma_insert_idx_props(children@, prev, x);
            assert forall|w: int| 0 <= w < ord@.len() implies (#[trigger] ord@[w])
                < children@.len() by {
                assert(ord@.contains(ord@[w]));
                assert(ord@[w] == x || prev.contains(ord@[w]));
                if ord@[w] != x {
                    let u = choose|u: int| 0 <= u < prev.len() && prev[u] == ord@[w];
                }
            }
            assert(vis@.take(k as int + 1).drop_last() =~= vis@.take(k as int));
            assert(vis@.take(k as int + 1).last() == vis@[k as int]);
        }
        k = k + 1;
    }
    proof {
        assert(vis@.take(vis@.len() as int) =~= vis@);
    }
    ord
}

} // verus!
