//! Reconstruction of nested discussion trees from a flat list of
//! (indent level, node) pairs.
//!
//! A parent candidate at position `p` with level `L` owns, as children, the
//! run of nodes immediately after `p` whose level is exactly `L + 1`; the run
//! ends at the first node whose level is at most `L`. A node whose level
//! jumps more than one step deeper than its nearest candidate parent has no
//! attachment point and is silently dropped. Each position is consumed at
//! most once: the builder threads a single scan position through the
//! recursion instead of sharing mutable state.

use vstd::prelude::*;

verus! {

use crate::models::HackerNewsComment;
use crate::models::NodeV;
use crate::models::nodes_view;
use crate::models::node_view_of;
use crate::models::lemma_nodes_view_index;

/// The scalar fields of a discussion node, without its level or subtree.
#[verifier::ext_equal]
pub ghost struct NodeFields {
    pub id: Seq<char>,
    pub by: Seq<char>,
    pub text: Seq<char>,
    pub time_ago: Seq<char>,
}

/// The scalar fields of a node view.
pub open spec fn fields_of(n: NodeV) -> NodeFields {
    NodeFields { id: n.id, by: n.by, text: n.text, time_ago: n.time_ago }
}

/// The scalar fields of each flat entry, paired with its declared level.
pub open spec fn flat_fields(flat: Seq<(i32, HackerNewsComment)>) -> Seq<(int, NodeFields)> {
    Seq::new(
        flat.len(),
        |i: int|
            (
                flat[i].0 as int,
                NodeFields {
                    id: flat[i].1.id@,
                    by: flat[i].1.by@,
                    text: flat[i].1.text@,
                    time_ago: flat[i].1.time_ago@,
                },
            ),
    )
}

/// Pre-order traversal of a forest, recording each visited node's depth
/// (`d` for the roots of `ns`) and scalar fields.
pub open spec fn preorder(ns: Seq<NodeV>, d: int) -> Seq<(int, NodeFields)>
    decreases ns,
{
    if ns.len() == 0 {
        Seq::empty()
    } else {
        seq![(d, fields_of(ns[0]))] + preorder(ns[0].children, d + 1) + preorder(
            ns.drop_first(),
            d,
        )
    }
}

/// Every direct child sits one level below its parent, recursively.
pub open spec fn node_wf(n: NodeV) -> bool
    decreases n,
{
    forall|i: int|
        0 <= i < n.children.len() ==> (#[trigger] n.children[i]).level == n.level + 1 && node_wf(
            n.children[i],
        )
}

/// Every node of `ns` has level `d` and a well-formed subtree.
pub open spec fn forest_wf_at(ns: Seq<NodeV>, d: int) -> bool {
    forall|i: int| 0 <= i < ns.len() ==> (#[trigger] ns[i]).level == d && node_wf(ns[i])
}

/// The first position at or after `pos` whose level is at most `bound`,
/// or the end of the list.
pub open spec fn stop_at(flat: Seq<(i32, HackerNewsComment)>, pos: int, bound: int) -> int
    decreases flat.len() - pos,
{
    if pos < 0 || pos >= flat.len() {
        flat.len() as int
    } else if flat[pos].0 <= bound {
        pos
    } else {
        stop_at(flat, pos + 1, bound)
    }
}

/// The run from `pos` up to `stop_at(flat, pos, bound)` is well-nested for
/// a parent at level `bound`: it opens at level `bound + 1` and never jumps
/// more than one level deeper per step.
pub open spec fn seg_wf(flat: Seq<(i32, HackerNewsComment)>, pos: int, bound: int) -> bool {
    forall|i: int|
        pos <= i < stop_at(flat, pos, bound) ==> (#[trigger] flat[i].0) as int <= (if i == pos {
            bound + 1
        } else {
            flat[i - 1].0 + 1
        })
}

/// From `pos` on, every level is at least zero, the first is zero, and no
/// step jumps more than one level deeper.
pub open spec fn roots_wf(flat: Seq<(i32, HackerNewsComment)>, pos: int) -> bool {
    forall|i: int|
        pos <= i < flat.len() ==> 0 <= (#[trigger] flat[i].0) as int <= (if i == pos {
            0
        } else {
            flat[i - 1].0 + 1
        })
}

/// A whole flat list is well-formed when its root segment is.
pub open spec fn flat_wf(flat: Seq<(i32, HackerNewsComment)>) -> bool {
    roots_wf(flat, 0)
}

/// The (depth, fields) entries that the run of entries from `pos` on
/// contributes under a parent at level `bound`, for any level sequence:
/// an entry at `bound + 1` opens a child, emitted together with its own
/// run; an entry deeper than `bound + 1` has no attachment point and is
/// dropped; the run ends before the first entry at `bound` or above.
pub open spec fn run_emit(flat: Seq<(i32, HackerNewsComment)>, pos: int, bound: int) -> Seq<
    (int, NodeFields),
>
    decreases flat.len() - pos,
    via run_emit_decreases
{
    if pos < 0 || pos >= flat.len() || flat[pos].0 <= bound {
        Seq::empty()
    } else if flat[pos].0 == bound + 1 {
        seq![(bound + 1, flat_fields(flat)[pos].1)] + run_emit(flat, pos + 1, bound + 1)
            + run_emit(flat, stop_at(flat, pos + 1, bound + 1), bound)
    } else {
        run_emit(flat, pos + 1, bound)
    }
}

#[via_fn]
proof fn run_emit_decreases(flat: Seq<(i32, HackerNewsComment)>, pos: int, bound: int) {
    if 0 <= pos < flat.len() && flat[pos].0 == bound + 1 {
        lemma_stop_at_char(flat, pos + 1, bound + 1);
    }
}

/// The (depth, fields) entries of the whole built forest, for any level
/// sequence: each entry at level zero becomes a root, emitted with its
/// run; an entry above level zero with no attachment point is dropped.
pub open spec fn roots_emit(flat: Seq<(i32, HackerNewsComment)>, pos: int) -> Seq<
    (int, NodeFields),
>
    decreases flat.len() - pos,
    via roots_emit_decreases
{
    if pos < 0 || pos >= flat.len() {
        Seq::empty()
    } else if flat[pos].0 == 0 {
        seq![(0int, flat_fields(flat)[pos].1)] + run_emit(flat, pos + 1, 0) + roots_emit(
            flat,
            stop_at(flat, pos + 1, 0),
        )
    } else {
        roots_emit(flat, pos + 1)
    }
}

#[via_fn]
proof fn roots_emit_decreases(flat: Seq<(i32, HackerNewsComment)>, pos: int) {
    if 0 <= pos < flat.len() && flat[pos].0 == 0 {
        lemma_stop_at_char(flat, pos + 1, 0);
    }
}

/// `a` is a subsequence of `b`: the entries of `a` appear in `b`, in
/// order, each matched to a distinct position.
pub open spec fn subseq_of(a: Seq<(int, NodeFields)>, b: Seq<(int, NodeFields)>) -> bool
    decreases b.len(),
{
    if a.len() == 0 {
        true
    } else if b.len() == 0 {
        false
    } else {
        (a[0] == b[0] && subseq_of(a.drop_first(), b.drop_first())) || subseq_of(
            a,
            b.drop_first(),
        )
    }
}

/// Every entry of `s` carries a distinct id.
pub open spec fn emit_ids_distinct(s: Seq<(int, NodeFields)>) -> bool {
    forall|i: int, j: int|
        0 <= i < j < s.len() ==> (#[trigger] s[i]).1.id != (#[trigger] s[j]).1.id
}

/// `s` holds an entry with this id.
pub open spec fn emit_has_id(s: Seq<(int, NodeFields)>, id: Seq<char>) -> bool {
    exists|k: int| 0 <= k < s.len() && (#[trigger] s[k]).1.id == id
}

/// A one-entry sequence is a subsequence of itself.
proof fn lemma_subseq_singleton(x: (int, NodeFields))
    ensures
        subseq_of(seq![x], seq![x]),
{
    let e = Seq::<(int, NodeFields)>::empty();
    assert(subseq_of(e, e));
    assert(seq![x].drop_first() =~= e);
}

/// A subsequence of `b` is one of `b` with an entry put in front.
proof fn lemma_subseq_pad(a: Seq<(int, NodeFields)>, x: (int, NodeFields), b: Seq<(int, NodeFields)>)
    requires
        subseq_of(a, b),
    ensures
        subseq_of(a, seq![x] + b),
{
    assert((seq![x] + b).drop_first() =~= b);
}

/// A subsequence of `b2` is one of any extension of `b2` to the left.
proof fn lemma_subseq_prepend(
    a: Seq<(int, NodeFields)>,
    b1: Seq<(int, NodeFields)>,
    b2: Seq<(int, NodeFields)>,
)
    requires
        subseq_of(a, b2),
    ensures
        subseq_of(a, b1 + b2),
    decreases b1.len(),
{
    if b1.len() == 0 {
        assert(b1 + b2 =~= b2);
    } else {
        lemma_subseq_prepend(a, b1.drop_first(), b2);
        lemma_subseq_pad(a, b1[0], b1.drop_first() + b2);
        assert(seq![b1[0]] + (b1.drop_first() + b2) =~= b1 + b2);
    }
}

/// Subsequences concatenate piecewise.
proof fn lemma_subseq_concat(
    a1: Seq<(int, NodeFields)>,
    b1: Seq<(int, NodeFields)>,
    a2: Seq<(int, NodeFields)>,
    b2: Seq<(int, NodeFields)>,
)
    requires
        subseq_of(a1, b1),
        subseq_of(a2, b2),
    ensures
        subseq_of(a1 + a2, b1 + b2),
    decreases b1.len(),
{
    if a1.len() == 0 {
        assert(a1 + a2 =~= a2);
        lemma_subseq_prepend(a2, b1, b2);
    } else {
        assert(b1.len() > 0);
        if a1[0] == b1[0] && subseq_of(a1.drop_first(), b1.drop_first()) {
            lemma_subseq_concat(a1.drop_first(), b1.drop_first(), a2, b2);
            assert((a1 + a2).drop_first() =~= a1.drop_first() + a2);
            assert((b1 + b2).drop_first() =~= b1.drop_first() + b2);
            assert((a1 + a2)[0] == (b1 + b2)[0]);
        } else {
            assert(subseq_of(a1, b1.drop_first()));
            lemma_subseq_concat(a1, b1.drop_first(), a2, b2);
            assert((b1 + b2).drop_first() =~= b1.drop_first() + b2);
        }
    }
}

/// The run's emitted entries are a subsequence of the flat entries it
/// scanned over.
proof fn lemma_run_emit_subseq(fl: Seq<(i32, HackerNewsComment)>, pos: int, b: int)
    requires
        0 <= pos <= fl.len(),
    ensures
        subseq_of(run_emit(fl, pos, b), flat_fields(fl).subrange(pos, stop_at(fl, pos, b))),
    decreases fl.len() - pos,
{
    let ff = flat_fields(fl);
    lemma_stop_at_char(fl, pos, b);
    if pos >= fl.len() || fl[pos].0 <= b {
    } else if fl[pos].0 == b + 1 {
        let p2 = stop_at(fl, pos + 1, b + 1);
        let p3 = stop_at(fl, p2, b);
        lemma_stop_at_char(fl, pos + 1, b + 1);
        lemma_stop_at_char(fl, p2, b);
        lemma_stop_at_through(fl, pos, p2, p3, b);
        lemma_run_emit_subseq(fl, pos + 1, b + 1);
        lemma_run_emit_subseq(fl, p2, b);
        assert(ff[pos].0 == fl[pos].0 as int);
        assert((b + 1, ff[pos].1) == ff[pos]);
        lemma_subseq_singleton(ff[pos]);
        lemma_subseq_concat(
            seq![ff[pos]],
            seq![ff[pos]],
            run_emit(fl, pos + 1, b + 1),
            ff.subrange(pos + 1, p2),
        );
        lemma_subseq_concat(
            seq![ff[pos]] + run_emit(fl, pos + 1, b + 1),
            seq![ff[pos]] + ff.subrange(pos + 1, p2),
            run_emit(fl, p2, b),
            ff.subrange(p2, p3),
        );
        assert(seq![ff[pos]] + ff.subrange(pos + 1, p2) + ff.subrange(p2, p3) =~= ff.subrange(
            pos,
            p3,
        ));
        assert(run_emit(fl, pos, b) == seq![ff[pos]] + run_emit(fl, pos + 1, b + 1) + run_emit(
            fl,
            p2,
            b,
        ));
    } else {
        lemma_run_emit_subseq(fl, pos + 1, b);
        let st = stop_at(fl, pos + 1, b);
        lemma_subseq_pad(run_emit(fl, pos + 1, b), ff[pos], ff.subrange(pos + 1, st));
        assert(seq![ff[pos]] + ff.subrange(pos + 1, st) =~= ff.subrange(pos, st));
    }
}

/// The whole forest's emitted entries are a subsequence of the flat
/// entries from `pos` on.
proof fn lemma_roots_emit_subseq(fl: Seq<(i32, HackerNewsComment)>, pos: int)
    requires
        0 <= pos <= fl.len(),
    ensures
        subseq_of(roots_emit(fl, pos), flat_fields(fl).subrange(pos, fl.len() as int)),
    decreases fl.len() - pos,
{
    let ff = flat_fields(fl);
    let len = fl.len() as int;
    if pos >= fl.len() {
    } else if fl[pos].0 == 0 {
        let p2 = stop_at(fl, pos + 1, 0);
        lemma_stop_at_char(fl, pos + 1, 0);
        lemma_run_emit_subseq(fl, pos + 1, 0);
        lemma_roots_emit_subseq(fl, p2);
        assert(ff[pos].0 == fl[pos].0 as int);
        assert((0int, ff[pos].1) == ff[pos]);
        lemma_subseq_singleton(ff[pos]);
        lemma_subseq_concat(
            seq![ff[pos]],
            seq![ff[pos]],
            run_emit(fl, pos + 1, 0),
            ff.subrange(pos + 1, p2),
        );
        lemma_subseq_concat(
            seq![ff[pos]] + run_emit(fl, pos + 1, 0),
            seq![ff[pos]] + ff.subrange(pos + 1, p2),
            roots_emit(fl, p2),
            ff.subrange(p2, len),
        );
        assert(seq![ff[pos]] + ff.subrange(pos + 1, p2) + ff.subrange(p2, len) =~= ff.subrange(
            pos,
            len,
        ));
        assert(roots_emit(fl, pos) == seq![ff[pos]] + run_emit(fl, pos + 1, 0) + roots_emit(
            fl,
            p2,
        ));
    } else {
        lemma_roots_emit_subseq(fl, pos + 1);
        lemma_subseq_pad(roots_emit(fl, pos + 1), ff[pos], ff.subrange(pos + 1, len));
        assert(seq![ff[pos]] + ff.subrange(pos + 1, len) =~= ff.subrange(pos, len));
    }
}

/// Law: for any level sequence, the built forest's pre-order entries are
/// a subsequence of the flat list's entries — every node is drawn from
/// the list, in list order, each position at most once.
pub proof fn lemma_emit_is_subsequence(flat: Seq<(i32, HackerNewsComment)>)
    ensures
        subseq_of(roots_emit(flat, 0), flat_fields(flat)),
{
    lemma_roots_emit_subseq(flat, 0);
    assert(flat_fields(flat).subrange(0, flat.len() as int) =~= flat_fields(flat));
}

/// A subsequence of a list with pairwise-distinct ids has pairwise
/// distinct ids itself, each drawn from the list.
pub proof fn lemma_subseq_ids(a: Seq<(int, NodeFields)>, b: Seq<(int, NodeFields)>)
    requires
        subseq_of(a, b),
        emit_ids_distinct(b),
    ensures
        emit_ids_distinct(a),
        forall|i: int| 0 <= i < a.len() ==> emit_has_id(b, (#[trigger] a[i]).1.id),
    decreases b.len(),
{
    if a.len() == 0 {
    } else {
        assert(emit_ids_distinct(b.drop_first())) by {
            assert forall|i: int, j: int|
                0 <= i < j < b.drop_first().len() implies (#[trigger] b.drop_first()[i]).1.id != (
            #[trigger] b.drop_first()[j]).1.id by {
                assert(b.drop_first()[i] == b[i + 1]);
                assert(b.drop_first()[j] == b[j + 1]);
            }
        }
        if a[0] == b[0] && subseq_of(a.drop_first(), b.drop_first()) {
            lemma_subseq_ids(a.drop_first(), b.drop_first());
            assert forall|i: int| 0 <= i < a.len() implies emit_has_id(
                b,
                (#[trigger] a[i]).1.id,
            ) by {
                if i == 0 {
                    assert(b[0].1.id == a[0].1.id);
                } else {
                    assert(a.drop_first()[i - 1] == a[i]);
                    assert(emit_has_id(b.drop_first(), a[i].1.id));
                    let k = choose|k: int|
                        0 <= k < b.drop_first().len() && (#[trigger] b.drop_first()[k]).1.id
                            == a[i].1.id;
                    assert(b.drop_first()[k] == b[k + 1]);
                }
            }
            assert forall|i: int, j: int|
                0 <= i < j < a.len() implies (#[trigger] a[i]).1.id != (#[trigger] a[j]).1.id by {
                assert(a.drop_first()[j - 1] == a[j]);
                if i == 0 {
                    assert(emit_has_id(b.drop_first(), a[j].1.id));
                    let k = choose|k: int|
                        0 <= k < b.drop_first().len() && (#[trigger] b.drop_first()[k]).1.id
                            == a[j].1.id;
                    assert(b.drop_first()[k] == b[k + 1]);
                    assert(b[0].1.id != b[k + 1].1.id);
                } else {
                    assert(a.drop_first()[i - 1] == a[i]);
                }
            }
        } else {
            assert(subseq_of(a, b.drop_first()));
            lemma_subseq_ids(a, b.drop_first());
            assert forall|i: int| 0 <= i < a.len() implies emit_has_id(
                b,
                (#[trigger] a[i]).1.id,
            ) by {
                assert(emit_has_id(b.drop_first(), a[i].1.id));
                let k = choose|k: int|
                    0 <= k < b.drop_first().len() && (#[trigger] b.drop_first()[k]).1.id
                        == a[i].1.id;
                assert(b.drop_first()[k] == b[k + 1]);
            }
        }
    }
}

/// `stop_at` yields the first position whose level is at most `bound`.
proof fn lemma_stop_at_char(flat: Seq<(i32, HackerNewsComment)>, pos: int, bound: int)
    requires
        0 <= pos <= flat.len(),
    ensures
        pos <= stop_at(flat, pos, bound) <= flat.len(),
        forall|i: int| pos <= i < stop_at(flat, pos, bound) ==> (#[trigger] flat[i].0) as int > bound,
        stop_at(flat, pos, bound) < flat.len() ==> flat[stop_at(flat, pos, bound)].0 <= bound,
    decreases flat.len() - pos,
{
    if pos < flat.len() && flat[pos].0 > bound {
        lemma_stop_at_char(flat, pos + 1, bound);
    }
}

/// Any position with the first-stop properties is `stop_at`.
proof fn lemma_stop_at_is(flat: Seq<(i32, HackerNewsComment)>, pos: int, bound: int, s: int)
    requires
        0 <= pos <= s <= flat.len(),
        forall|i: int| pos <= i < s ==> (#[trigger] flat[i].0) as int > bound,
        s < flat.len() ==> flat[s].0 <= bound,
    ensures
        stop_at(flat, pos, bound) == s,
    decreases s - pos,
{
    if pos < s {
        lemma_stop_at_is(flat, pos + 1, bound, s);
    }
}

/// A forest assembled as one node followed by its siblings: its views, its
/// well-formedness, and the first step of its pre-order traversal.
proof fn lemma_cons_forest(
    out_seq: Seq<HackerNewsComment>,
    node: HackerNewsComment,
    rest_seq: Seq<HackerNewsComment>,
    d: int,
)
    requires
        out_seq == Seq::empty().push(node) + rest_seq,
        node_view_of(node).level == d,
        node_wf(node_view_of(node)),
        forest_wf_at(nodes_view(rest_seq), d),
    ensures
        nodes_view(out_seq).len() == 1 + rest_seq.len(),
        nodes_view(out_seq)[0] == node_view_of(node),
        forest_wf_at(nodes_view(out_seq), d),
        preorder(nodes_view(out_seq), d) == seq![(d, fields_of(node_view_of(node)))] + preorder(
            node_view_of(node).children,
            d + 1,
        ) + preorder(nodes_view(rest_seq), d),
{
    lemma_nodes_view_index(out_seq);
    lemma_nodes_view_index(rest_seq);
    assert(out_seq[0] == node);
    assert forall|i: int| 0 <= i < rest_seq.len() implies nodes_view(out_seq).drop_first()[i]
        == nodes_view(rest_seq)[i] by {
        assert(out_seq[i + 1] == rest_seq[i]);
        assert(nodes_view(out_seq).drop_first()[i] == nodes_view(out_seq)[i + 1]);
    }
    assert(nodes_view(out_seq).drop_first() =~= nodes_view(rest_seq));
    assert forall|i: int| 0 <= i < nodes_view(out_seq).len() implies (#[trigger] nodes_view(
        out_seq,
    )[i]).level == d && node_wf(nodes_view(out_seq)[i]) by {
        if i > 0 {
            assert(out_seq[i] == rest_seq[i - 1]);
            assert(nodes_view(out_seq)[i] == nodes_view(rest_seq)[i - 1]);
            assert(nodes_view(rest_seq)[i - 1].level == d && node_wf(nodes_view(rest_seq)[i - 1]));
        }
    }
}

/// Three adjacent pieces of a sequence concatenate to the enclosing range.
proof fn lemma_concat_pieces(
    ff: Seq<(int, NodeFields)>,
    pos: int,
    p2: int,
    p3: int,
    x: Seq<(int, NodeFields)>,
)
    requires
        0 <= pos < p2 <= p3 <= ff.len(),
        x == seq![ff[pos]] + ff.subrange(pos + 1, p2) + ff.subrange(p2, p3),
    ensures
        x == ff.subrange(pos, p3),
{
    assert(x =~= ff.subrange(pos, p3));
}

/// A run of entries above `bound` passes `stop_at` through: the parent's
/// scan stops exactly where the scan after its child run stops.
proof fn lemma_stop_at_through(
    fl: Seq<(i32, HackerNewsComment)>,
    pos: int,
    p2: int,
    p3: int,
    b: int,
)
    requires
        0 <= pos < fl.len(),
        fl[pos].0 == b + 1,
        pos + 1 <= p2 <= fl.len(),
        p2 == stop_at(fl, pos + 1, b + 1),
        p2 <= p3 <= fl.len(),
        p3 == stop_at(fl, p2, b),
    ensures
        stop_at(fl, pos, b) == p3,
{
    lemma_stop_at_char(fl, pos + 1, b + 1);
    lemma_stop_at_char(fl, p2, b);
    assert forall|i: int| pos <= i < p3 implies (#[trigger] fl[i].0) as int > b by {
        if pos + 1 <= i < p2 {
            assert(fl[i].0 > b + 1);
        }
    }
    lemma_stop_at_is(fl, pos, b, p3);
}

/// In a well-nested run opened by a child at `pos`, the child's own run is
/// well-nested one level deeper, the remainder after it is well-nested at
/// the same level, and the three exact pre-order pieces concatenate to the
/// whole run.
proof fn lemma_children_exact(
    fl: Seq<(i32, HackerNewsComment)>,
    pos: int,
    p2: int,
    p3: int,
    b: int,
    out_v: Seq<NodeV>,
    kids_v: Seq<NodeV>,
    rest_v: Seq<NodeV>,
)
    requires
        seg_wf(fl, pos, b),
        0 <= pos < fl.len(),
        fl[pos].0 == b + 1,
        pos + 1 <= p2 <= fl.len(),
        p2 == stop_at(fl, pos + 1, b + 1),
        p2 <= p3 <= fl.len(),
        p3 == stop_at(fl, p2, b),
        stop_at(fl, pos, b) == p3,
        preorder(out_v, b + 1) == seq![(b + 1, flat_fields(fl)[pos].1)] + preorder(kids_v, b + 2)
            + preorder(rest_v, b + 1),
        seg_wf(fl, pos + 1, b + 1) ==> preorder(kids_v, b + 2) == flat_fields(fl).subrange(
            pos + 1,
            p2,
        ),
        seg_wf(fl, p2, b) ==> preorder(rest_v, b + 1) == flat_fields(fl).subrange(p2, p3),
    ensures
        preorder(out_v, b + 1) == flat_fields(fl).subrange(pos, p3),
{
    lemma_stop_at_char(fl, pos + 1, b + 1);
    lemma_stop_at_char(fl, p2, b);
    assert forall|i: int|
        pos + 1 <= i < stop_at(fl, pos + 1, b + 1) implies (#[trigger] fl[i].0) as int <= (if i
        == pos + 1 {
        (b + 1) + 1
    } else {
        fl[i - 1].0 + 1
    }) by {
        assert(fl[i].0 <= fl[i - 1].0 + 1);
    }
    assert(seg_wf(fl, pos + 1, b + 1));
    assert forall|i: int|
        p2 <= i < stop_at(fl, p2, b) implies (#[trigger] fl[i].0) as int <= (if i == p2 {
        b + 1
    } else {
        fl[i - 1].0 + 1
    }) by {
        if i > p2 {
            assert(fl[i].0 <= fl[i - 1].0 + 1);
        }
    }
    assert(seg_wf(fl, p2, b));
    let ff = flat_fields(fl);
    assert((b + 1, ff[pos].1) == ff[pos]);
    lemma_concat_pieces(ff, pos, p2, p3, preorder(out_v, b + 1));
}

/// The analogue for a root at `pos`: its run is well-nested at level zero,
/// what follows the run is again a root segment, and the pre-order pieces
/// concatenate to the rest of the list.
proof fn lemma_roots_exact(
    fl: Seq<(i32, HackerNewsComment)>,
    pos: int,
    p2: int,
    out_v: Seq<NodeV>,
    kids_v: Seq<NodeV>,
    rest_v: Seq<NodeV>,
)
    requires
        roots_wf(fl, pos),
        0 <= pos < fl.len(),
        fl[pos].0 == 0,
        pos + 1 <= p2 <= fl.len(),
        p2 == stop_at(fl, pos + 1, 0),
        preorder(out_v, 0) == seq![(0int, flat_fields(fl)[pos].1)] + preorder(kids_v, 1)
            + preorder(rest_v, 0),
        seg_wf(fl, pos + 1, 0) ==> preorder(kids_v, 1) == flat_fields(fl).subrange(pos + 1, p2),
        roots_wf(fl, p2) ==> preorder(rest_v, 0) == flat_fields(fl).subrange(
            p2,
            fl.len() as int,
        ),
    ensures
        preorder(out_v, 0) == flat_fields(fl).subrange(pos, fl.len() as int),
{
    lemma_stop_at_char(fl, pos + 1, 0);
    assert forall|i: int|
        pos + 1 <= i < stop_at(fl, pos + 1, 0) implies (#[trigger] fl[i].0) as int <= (if i == pos
        + 1 {
        1
    } else {
        fl[i - 1].0 + 1
    }) by {
        assert(fl[i].0 <= fl[i - 1].0 + 1);
    }
    assert(seg_wf(fl, pos + 1, 0));
    assert forall|i: int|
        p2 <= i < fl.len() implies 0 <= (#[trigger] fl[i].0) as int <= (if i == p2 {
        0
    } else {
        fl[i - 1].0 + 1
    }) by {
        if i > p2 {
            assert(fl[i].0 <= fl[i - 1].0 + 1);
        }
    }
    assert(roots_wf(fl, p2));
    let ff = flat_fields(fl);
    assert((0int, ff[pos].1) == ff[pos]);
    lemma_concat_pieces(ff, pos, p2, fl.len() as int, preorder(out_v, 0));
}

/// A fresh node carrying the scalar fields of `base`, the given level, and
/// the given subtrees as children.
fn make_node(base: &HackerNewsComment, level: i32, kids: Vec<HackerNewsComment>) -> (n:
    HackerNewsComment)
    ensures
        n@.id == base.id@,
        n@.by == base.by@,
        n@.text == base.text@,
        n@.time_ago == base.time_ago@,
        n@.level == level as int,
        n@.children == nodes_view(kids@),
{
    HackerNewsComment {
        id: base.id.clone(),
        by: base.by.clone(),
        text: base.text.clone(),
        time_ago: base.time_ago.clone(),
        level,
        children: kids,
    }
}

/// Collects the children of a parent at level `bound` standing just before
/// `pos`: the run of entries from `pos` on at level `bound + 1`, each with
/// its own subtree, ending at the first entry at level `bound` or above.
/// Returns the children and the position of that first entry. Entries in
/// the run deeper than `bound + 1` that no child's own run consumes are
/// dropped.
#[verifier::spinoff_prover]
fn collect_children(flat: &Vec<(i32, HackerNewsComment)>, pos: usize, bound: i32) -> (res: (
    Vec<HackerNewsComment>,
    usize,
))
    requires
        pos <= flat@.len(),
    ensures
        pos <= res.1 <= flat@.len(),
        res.1 == stop_at(flat@, pos as int, bound as int),
        forest_wf_at(nodes_view(res.0@), bound as int + 1),
        preorder(nodes_view(res.0@), bound as int + 1) == run_emit(
            flat@,
            pos as int,
            bound as int,
        ),
        seg_wf(flat@, pos as int, bound as int) ==> preorder(nodes_view(res.0@), bound as int + 1)
            == flat_fields(flat@).subrange(pos as int, res.1 as int),
    decreases flat@.len() - pos,
{
    let n = flat.len();
    if pos >= n {
        let out: Vec<HackerNewsComment> = Vec::new();
        proof {
            lemma_nodes_view_index(out@);
            assert(preorder(nodes_view(out@), bound as int + 1) =~= flat_fields(flat@).subrange(
                pos as int,
                pos as int,
            ));
            assert(preorder(nodes_view(out@), bound as int + 1) =~= run_emit(
                flat@,
                pos as int,
                bound as int,
            ));
        }
        return (out, pos);
    }
    let lv = flat[pos].0;
    if (lv as i64) <= (bound as i64) {
        let out: Vec<HackerNewsComment> = Vec::new();
        proof {
            lemma_nodes_view_index(out@);
            assert(preorder(nodes_view(out@), bound as int + 1) =~= flat_fields(flat@).subrange(
                pos as int,
                pos as int,
            ));
            assert(preorder(nodes_view(out@), bound as int + 1) =~= run_emit(
                flat@,
                pos as int,
                bound as int,
            ));
        }
        return (out, pos);
    }
    if (lv as i64) == (bound as i64) + 1 {
        let (kids, p2) = collect_children(flat, pos + 1, lv);
        let node = make_node(&flat[pos].1, lv, kids);
        let ghost kids_v = nodes_view(kids@);
        let (rest0, p3) = collect_children(flat, p2, bound);
        let mut out: Vec<HackerNewsComment> = Vec::new();
        out.push(node);
        let mut rest = rest0;
        let ghost rest_seq = rest@;
        out.append(&mut rest);
        proof {
            let b = bound as int;
            let fl = flat@;
            lemma_stop_at_through(fl, pos as int, p2 as int, p3 as int, b);
            assert(node_wf(node@));
            lemma_cons_forest(out@, node, rest_seq, b + 1);
            assert(flat_fields(fl)[pos as int].1 == fields_of(node@));
            assert(run_emit(fl, pos as int, b) == seq![(b + 1, flat_fields(fl)[pos as int].1)]
                + run_emit(fl, pos as int + 1, b + 1) + run_emit(fl, p2 as int, b));
            assert(preorder(nodes_view(out@), b + 1) == run_emit(fl, pos as int, b));
            if seg_wf(fl, pos as int, b) {
                lemma_children_exact(
                    fl,
                    pos as int,
                    p2 as int,
                    p3 as int,
                    b,
                    nodes_view(out@),
                    kids_v,
                    nodes_view(rest_seq),
                );
            }
        }
        return (out, p3);
    }
    // a level gap: the entry has no attachment point and is dropped
    let res = collect_children(flat, pos + 1, bound);
    proof {
        let fl = flat@;
        let b = bound as int;
        assert(run_emit(fl, pos as int, b) == run_emit(fl, pos as int + 1, b));
        if seg_wf(fl, pos as int, b) {
            assert(stop_at(fl, pos as int, b) == stop_at(fl, pos as int + 1, b));
            assert(stop_at(fl, pos as int, b) > pos as int);
            assert(fl[pos as int].0 <= b + 1);
            assert(false);
        }
    }
    res
}

/// Builds the forest of root nodes: every entry at level zero becomes a
/// root with its collected subtree; entries above level zero that no run
/// consumes are dropped.
#[verifier::spinoff_prover]
fn build_roots(flat: &Vec<(i32, HackerNewsComment)>, pos: usize) -> (roots: Vec<HackerNewsComment>)
    requires
        pos <= flat@.len(),
    ensures
        forest_wf_at(nodes_view(roots@), 0),
        preorder(nodes_view(roots@), 0) == roots_emit(flat@, pos as int),
        roots_wf(flat@, pos as int) ==> preorder(nodes_view(roots@), 0) == flat_fields(
            flat@,
        ).subrange(pos as int, flat@.len() as int),
    decreases flat@.len() - pos,
{
    let n = flat.len();
    if pos >= n {
        let out: Vec<HackerNewsComment> = Vec::new();
        proof {
            lemma_nodes_view_index(out@);
            assert(preorder(nodes_view(out@), 0) =~= flat_fields(flat@).subrange(
                pos as int,
                flat@.len() as int,
            ));
            assert(preorder(nodes_view(out@), 0) =~= roots_emit(flat@, pos as int));
        }
        return out;
    }
    let lv = flat[pos].0;
    if lv == 0 {
        let (kids, p2) = collect_children(flat, pos + 1, 0);
        let node = make_node(&flat[pos].1, 0, kids);
        let ghost kids_v = nodes_view(kids@);
        let rest0 = build_roots(flat, p2);
        let mut out: Vec<HackerNewsComment> = Vec::new();
        out.push(node);
        let mut rest = rest0;
        let ghost rest_seq = rest@;
        out.append(&mut rest);
        proof {
            let fl = flat@;
            assert(node_wf(node@));
            lemma_cons_forest(out@, node, rest_seq, 0);
            assert(flat_fields(fl)[pos as int].1 == fields_of(node@));
            assert(roots_emit(fl, pos as int) == seq![(0int, flat_fields(fl)[pos as int].1)]
                + run_emit(fl, pos as int + 1, 0) + roots_emit(fl, p2 as int));
            assert(preorder(nodes_view(out@), 0) == roots_emit(fl, pos as int));
            if roots_wf(fl, pos as int) {
                lemma_roots_exact(
                    fl,
                    pos as int,
                    p2 as int,
                    nodes_view(out@),
                    kids_v,
                    nodes_view(rest_seq),
                );
            }
        }
        return out;
    }
    // a non-root entry with no preceding attachment point is dropped
    let res = build_roots(flat, pos + 1);
    proof {
        assert(roots_emit(flat@, pos as int) == roots_emit(flat@, pos as int + 1));
        if roots_wf(flat@, pos as int) {
            assert(flat@[pos as int].0 as int <= 0);
            assert(false);
        }
    }
    res
}

/// Reconstructs the ordered forest of discussion trees from the flat
/// (indent level, node) sequence.
///
/// For any level sequence, a pre-order traversal of the result, recording
/// each visited node's depth and scalar fields, equals `roots_emit` of the
/// flat list — which pins attachment order, the silent drop of nodes with
/// no attachment point, and every field. Law: for a well-formed flat list
/// (first level zero, no level ever more than one deeper than its
/// predecessor), that traversal reproduces the flat sequence exactly.
/// Unconditionally, every root has level zero and each direct child's
/// level is its parent's plus one.
pub fn build_comments_tree(flat: &Vec<(i32, HackerNewsComment)>) -> (roots: Vec<HackerNewsComment>)
    ensures
        forest_wf_at(nodes_view(roots@), 0),
        preorder(nodes_view(roots@), 0) == roots_emit(flat@, 0),
        flat_wf(flat@) ==> preorder(nodes_view(roots@), 0) == flat_fields(flat@),
{
    let roots = build_roots(flat, 0);
    proof {
        assert(flat_fields(flat@).subrange(0, flat@.len() as int) =~= flat_fields(flat@));
    }
    roots
}

} // verus!
