//! The round trip of segment groups and messages, for unambiguous schemas.
use vstd::prelude::*;
use crate::error::{ErrorModel, ParseError};
use crate::group::{
    group_anchor, node_anchor, occurrences_of, opens, parse_group, parse_member, parse_members,
    parse_node, parse_repeat, render_group, render_members, render_node, render_occurrences,
};
use crate::laws::{
    lemma_lines_round_trip, lemma_segment_line_shape, lemma_segment_round_trip, segment_fits,
    tags_unbroken,
};
use crate::message::{line_breaks, parse_message, render_message};
use crate::schema::{Cardinality, MemberSpec, Node, Schema};
use crate::segment::{parse_segment_at, render_segment};
use crate::text::{free_of, split, strip_start};
use crate::value::{GroupModel, NodeModel};

verus! {

/// The tag that a line carries: its first element.
pub open spec fn line_tag(sch: Schema, line: Seq<char>) -> Seq<char> {
    split(line, sch.delimiters.element)[0]
}

/// Whether a line with tag `t` after an occurrence of group `c` is left alone by
/// the repeatable and optional members of `c` and of the groups within it.
pub open spec fn stops(sch: Schema, c: int, t: Seq<char>) -> bool
    decreases sch.groups@.len() - c,
{
    if 0 <= c < sch.groups@.len() {
        forall|k: int|
            0 <= k < sch.groups@[c].members@.len() ==> {
                &&& (k >= 1 && sch.groups@[c].members@[k].cardinality != Cardinality::One ==> t
                    != node_anchor(sch, #[trigger] sch.groups@[c].members@[k].node))
                &&& match sch.groups@[c].members@[k].node {
                    Node::Group(c2) => c < c2 < sch.groups@.len() ==> stops(sch, c2 as int, t),
                    Node::Segment(_) => true,
                }
            }
    } else {
        true
    }
}

/// Whether a line with tag `t` after the occurrences of member `m` is left alone
/// by it: a repeatable or optional member does not take it, and a nested group
/// stops before it.
pub open spec fn passes(sch: Schema, m: MemberSpec, t: Seq<char>) -> bool {
    &&& (m.cardinality != Cardinality::One ==> t != node_anchor(sch, m.node))
    &&& match m.node {
        Node::Group(c) => stops(sch, c as int, t),
        Node::Segment(_) => true,
    }
}

/// The schema can be read with one line of lookahead: every group's anchor
/// member occurs exactly once; a later member's anchor tag passes every earlier
/// member; and a group's own anchor tag is left alone by what the group holds.
pub open spec fn unambiguous(sch: Schema) -> bool {
    &&& forall|g: int|
        0 <= g < sch.groups@.len() ==> (#[trigger] sch.groups@[g]).members@[0].cardinality
            == Cardinality::One
    &&& forall|g: int, k: int, j: int|
        0 <= g < sch.groups@.len() && 0 <= k < j < sch.groups@[g].members@.len() ==> passes(
            sch,
            #[trigger] sch.groups@[g].members@[k],
            node_anchor(sch, (#[trigger] sch.groups@[g].members@[j]).node),
        )
    &&& forall|c: int| 0 <= c < sch.groups@.len() ==> #[trigger] stops(sch, c, group_anchor(sch, c))
}

/// An occurrence of node `n`, a member of group `g`, that the schema can carry
/// through text and back.
pub open spec fn node_fits(sch: Schema, g: int, n: Node, v: NodeModel) -> bool
    decreases sch.groups@.len() - g, 0int,
{
    match n {
        Node::Segment(s) => match v {
            NodeModel::Segment(sv) => s < sch.segments@.len() && segment_fits(sch, s as int, sv)
                && render_segment(sch, s as int, sv).len() > 0,
            _ => false,
        },
        Node::Group(c) => match v {
            NodeModel::Group(gv) => g < c < sch.groups@.len() && group_fits(sch, c as int, gv),
            _ => false,
        },
    }
}

/// Whether a number of occurrences is allowed by a cardinality.
pub open spec fn count_fits(card: Cardinality, n: nat) -> bool {
    match card {
        Cardinality::One => n == 1,
        Cardinality::Optional => n <= 1,
        Cardinality::ZeroOrMore => true,
        Cardinality::OneOrMore => n >= 1,
    }
}

/// A group value that the schema can carry through text and back: for each
/// member, as many fitting occurrences as its cardinality allows.
pub open spec fn group_fits(sch: Schema, g: int, v: GroupModel) -> bool
    decreases sch.groups@.len() - g, 1int,
{
    &&& 0 <= g < sch.groups@.len()
    &&& v.members.len() == sch.groups@[g].members@.len()
    &&& forall|k: int|
        0 <= k < v.members.len() ==> count_fits(
            sch.groups@[g].members@[k].cardinality,
            (#[trigger] v.members[k]).len(),
        )
    &&& forall|k: int, j: int|
        0 <= k < v.members.len() && 0 <= j < v.members[k].len() ==> node_fits(
            sch,
            g,
            sch.groups@[g].members@[k].node,
            #[trigger] v.members[k][j],
        )
}


proof fn lemma_members_prefix(sch: Schema, g: int, v: GroupModel, k: int, m: int)
    requires
        0 <= k <= m,
    ensures
        render_members(sch, g, v, k).len() <= render_members(sch, g, v, m).len(),
        render_members(sch, g, v, m).subrange(0, render_members(sch, g, v, k).len() as int)
            == render_members(sch, g, v, k),
    decreases m - k,
{
    if k < m {
        lemma_members_prefix(sch, g, v, k, m - 1);
        let a = render_members(sch, g, v, m - 1);
        let b = render_members(sch, g, v, m);
        let c = render_members(sch, g, v, k);
        assert(b.subrange(0, a.len() as int) =~= a);
        assert(b.subrange(0, c.len() as int) =~= a.subrange(0, c.len() as int));
    } else {
        assert(render_members(sch, g, v, m).subrange(0, render_members(sch, g, v, m).len() as int)
            =~= render_members(sch, g, v, m));
    }
}

proof fn lemma_occurrences_prefix(
    sch: Schema,
    g: int,
    n: Node,
    occ: Seq<NodeModel>,
    i: int,
    m: int,
)
    requires
        0 <= i <= m,
    ensures
        render_occurrences(sch, g, n, occ, i).len() <= render_occurrences(sch, g, n, occ, m).len(),
        render_occurrences(sch, g, n, occ, m).subrange(
            0,
            render_occurrences(sch, g, n, occ, i).len() as int,
        ) == render_occurrences(sch, g, n, occ, i),
    decreases m - i,
{
    if i < m {
        lemma_occurrences_prefix(sch, g, n, occ, i, m - 1);
        let a = render_occurrences(sch, g, n, occ, m - 1);
        let b = render_occurrences(sch, g, n, occ, m);
        let c = render_occurrences(sch, g, n, occ, i);
        assert(b.subrange(0, a.len() as int) =~= a);
        assert(b.subrange(0, c.len() as int) =~= a.subrange(0, c.len() as int));
    } else {
        let b = render_occurrences(sch, g, n, occ, m);
        assert(b.subrange(0, b.len() as int) =~= b);
    }
}

/// A fitting occurrence renders as at least one line, the first carrying the
/// node's anchor tag.
proof fn lemma_node_first_line(sch: Schema, g: int, n: Node, v: NodeModel)
    requires
        sch.wf(),
        unambiguous(sch),
        0 <= g < sch.groups@.len(),
        node_fits(sch, g, n, v),
    ensures
        render_node(sch, g, n, v).len() >= 1,
        line_tag(sch, render_node(sch, g, n, v)[0]) == node_anchor(sch, n),
    decreases sch.groups@.len() - g, 0int,
{
    match n {
        Node::Segment(s) => {
            if let NodeModel::Segment(sv) = v {
                lemma_segment_round_trip(sch, s as int, sv, 0);
                let l = render_segment(sch, s as int, sv);
                assert(render_node(sch, g, n, v) == seq![l]);
            }
        },
        Node::Group(c) => {
            if let NodeModel::Group(gv) = v {
                lemma_group_first_line(sch, c as int, gv);
            }
        },
    }
}

/// A fitting group renders as at least one line, the first carrying its anchor tag.
proof fn lemma_group_first_line(sch: Schema, c: int, v: GroupModel)
    requires
        sch.wf(),
        unambiguous(sch),
        group_fits(sch, c, v),
    ensures
        render_group(sch, c, v).len() >= 1,
        line_tag(sch, render_group(sch, c, v)[0]) == group_anchor(sch, c),
    decreases sch.groups@.len() - c, 1int,
{
    let ms = sch.groups@[c].members@;
    assert(sch.group_wf(c));
    assert(ms[0].cardinality == Cardinality::One);
    let n0 = ms[0].node;
    assert(sch.node_wf(c, n0));
    let occ = occurrences_of(v, 0);
    assert(count_fits(ms[0].cardinality, v.members[0].len()));
    assert(occ.len() == 1);
    assert(node_fits(sch, c, n0, v.members[0][0]));
    lemma_node_first_line(sch, c, n0, occ[0]);
    let r1 = render_members(sch, c, v, 1);
    assert(render_occurrences(sch, c, n0, occ, 1) == render_occurrences(sch, c, n0, occ, 0)
        + render_node(sch, c, n0, occ[0]));
    assert(render_occurrences(sch, c, n0, occ, 1) =~= render_node(sch, c, n0, occ[0]));
    assert(render_members(sch, c, v, 0) == Seq::<Seq<char>>::empty());
    assert(r1 == render_members(sch, c, v, 0) + render_occurrences(sch, c, n0, occ, 1));
    assert(r1 =~= render_node(sch, c, n0, occ[0]));
    lemma_members_prefix(sch, c, v, 1, ms.len() as int);
    let all = render_group(sch, c, v);
    assert(all[0] == all.subrange(0, r1.len() as int)[0]);
}


/// Whether `r` stands in `lines` from `pos` on.
pub open spec fn sits(lines: Seq<Seq<char>>, pos: int, r: Seq<Seq<char>>) -> bool {
    &&& 0 <= pos
    &&& pos + r.len() <= lines.len()
    &&& lines.subrange(pos, pos + r.len()) == r
}

/// Whether the line at `q` ends the occurrences of node `n` as far as `n` is concerned.
pub open spec fn after_node(sch: Schema, n: Node, lines: Seq<Seq<char>>, q: int) -> bool {
    q == lines.len() || match n {
        Node::Group(c) => stops(sch, c as int, line_tag(sch, lines[q])),
        Node::Segment(_) => true,
    }
}

/// Whether the line at `q` ends the occurrences of member `k` of group `g`.
pub open spec fn after_member(sch: Schema, g: int, k: int, lines: Seq<Seq<char>>, q: int) -> bool {
    let m = sch.groups@[g].members@[k];
    q == lines.len() || ((m.cardinality != Cardinality::One ==> line_tag(sch, lines[q])
        != node_anchor(sch, m.node)) && after_node(sch, m.node, lines, q))
}

proof fn lemma_sits_sub(lines: Seq<Seq<char>>, pos: int, r: Seq<Seq<char>>, a: int, b: int)
    requires
        sits(lines, pos, r),
        0 <= a <= b <= r.len(),
    ensures
        sits(lines, pos + a, r.subrange(a, b)),
{
    assert(lines.subrange(pos + a, pos + b) =~= r.subrange(a, b)) by {
        assert forall|i: int| 0 <= i < b - a implies lines.subrange(pos + a, pos + b)[i] == r.subrange(
            a,
            b,
        )[i] by {
            assert(lines.subrange(pos, pos + r.len())[a + i] == r[a + i]);
        }
    }
}

/// The occurrence `i` of a member renders at its place among the member's lines.
proof fn lemma_occurrence_at(
    sch: Schema,
    g: int,
    n: Node,
    occ: Seq<NodeModel>,
    lines: Seq<Seq<char>>,
    p: int,
    i: int,
)
    requires
        0 <= i < occ.len(),
        sits(lines, p, render_occurrences(sch, g, n, occ, occ.len() as int)),
    ensures
        sits(
            lines,
            p + render_occurrences(sch, g, n, occ, i).len(),
            render_node(sch, g, n, occ[i]),
        ),
        render_occurrences(sch, g, n, occ, i + 1).len() == render_occurrences(sch, g, n, occ, i).len()
            + render_node(sch, g, n, occ[i]).len(),
{
    let m = occ.len() as int;
    let all = render_occurrences(sch, g, n, occ, m);
    let a = render_occurrences(sch, g, n, occ, i);
    let b = render_occurrences(sch, g, n, occ, i + 1);
    lemma_occurrences_prefix(sch, g, n, occ, i + 1, m);
    assert(b == a + render_node(sch, g, n, occ[i]));
    assert(all.subrange(a.len() as int, b.len() as int) =~= render_node(sch, g, n, occ[i])) by {
        assert(all.subrange(0, b.len() as int) == b);
        assert forall|t: int| 0 <= t < b.len() - a.len() implies all.subrange(
            a.len() as int,
            b.len() as int,
        )[t] == render_node(sch, g, n, occ[i])[t] by {
            assert(all.subrange(0, b.len() as int)[a.len() + t] == b[a.len() + t]);
        }
    }
    lemma_sits_sub(lines, p, all, a.len() as int, b.len() as int);
}

proof fn lemma_node_round_trip(
    sch: Schema,
    g: int,
    n: Node,
    v: NodeModel,
    lines: Seq<Seq<char>>,
    pos: int,
)
    requires
        sch.wf(),
        unambiguous(sch),
        0 <= g < sch.groups@.len(),
        node_fits(sch, g, n, v),
        sits(lines, pos, render_node(sch, g, n, v)),
        after_node(sch, n, lines, pos + render_node(sch, g, n, v).len()),
    ensures
        parse_node(sch, g, n, lines, pos) == Ok::<(NodeModel, int), ErrorModel>(
            (v, pos + render_node(sch, g, n, v).len()),
        ),
    decreases sch.groups@.len() - g, 0int, 0int,
{
    match n {
        Node::Segment(s) => {
            if let NodeModel::Segment(sv) = v {
                let l = render_segment(sch, s as int, sv);
                assert(render_node(sch, g, n, v) == seq![l]);
                assert(lines[pos] == lines.subrange(pos, pos + 1)[0]);
                lemma_segment_round_trip(sch, s as int, sv, pos);
                assert(parse_segment_at(sch, s as int, lines, pos) == Ok::<
                    (crate::value::SegmentModel, int),
                    ErrorModel,
                >((sv, pos + 1)));
            }
        },
        Node::Group(c) => {
            if let NodeModel::Group(gv) = v {
                lemma_group_round_trip(sch, c as int, gv, lines, pos);
            }
        },
    }
}

proof fn lemma_repeat_round_trip(
    sch: Schema,
    g: int,
    k: int,
    occ: Seq<NodeModel>,
    lines: Seq<Seq<char>>,
    p: int,
    i: int,
)
    requires
        sch.wf(),
        unambiguous(sch),
        0 <= g < sch.groups@.len(),
        0 <= k < sch.groups@[g].members@.len(),
        sch.groups@[g].members@[k].cardinality != Cardinality::One,
        forall|j: int|
            0 <= j < occ.len() ==> node_fits(sch, g, sch.groups@[g].members@[k].node, #[trigger] occ[j]),
        sits(
            lines,
            p,
            render_occurrences(sch, g, sch.groups@[g].members@[k].node, occ, occ.len() as int),
        ),
        after_member(
            sch,
            g,
            k,
            lines,
            p + render_occurrences(sch, g, sch.groups@[g].members@[k].node, occ, occ.len() as int).len(),
        ),
        0 <= i <= occ.len(),
    ensures
        parse_repeat(
            sch,
            g,
            sch.groups@[g].members@[k].node,
            lines,
            p + render_occurrences(sch, g, sch.groups@[g].members@[k].node, occ, i).len(),
        ) == Ok::<(Seq<NodeModel>, int), ErrorModel>(
            (
                occ.subrange(i, occ.len() as int),
                p + render_occurrences(
                    sch,
                    g,
                    sch.groups@[g].members@[k].node,
                    occ,
                    occ.len() as int,
                ).len(),
            ),
        ),
    decreases sch.groups@.len() - g, 1int, occ.len() - i,
{
    let n = sch.groups@[g].members@[k].node;
    let m = occ.len() as int;
    let q = p + render_occurrences(sch, g, n, occ, m).len();
    let pi = p + render_occurrences(sch, g, n, occ, i).len();
    if i == m {
        assert(occ.subrange(m, m) =~= Seq::<NodeModel>::empty());
        assert(!opens(sch, n, lines, q));
    } else {
        lemma_occurrence_at(sch, g, n, occ, lines, p, i);
        let r = render_node(sch, g, n, occ[i]);
        lemma_node_first_line(sch, g, n, occ[i]);
        assert(lines[pi] == r[0]) by {
            assert(lines.subrange(pi, pi + r.len())[0] == r[0]);
        }
        assert(opens(sch, n, lines, pi));
        let pn = pi + r.len();
        lemma_occurrences_prefix(sch, g, n, occ, i + 1, m);
        assert(after_node(sch, n, lines, pn)) by {
            if i + 1 < m {
                lemma_occurrence_at(sch, g, n, occ, lines, p, i + 1);
                let r2 = render_node(sch, g, n, occ[i + 1]);
                lemma_node_first_line(sch, g, n, occ[i + 1]);
                assert(lines[pn] == r2[0]) by {
                    assert(lines.subrange(pn, pn + r2.len())[0] == r2[0]);
                }
                if let Node::Group(c) = n {
                    assert(stops(sch, c as int, group_anchor(sch, c as int)));
                }
            }
        }
        lemma_node_round_trip(sch, g, n, occ[i], lines, pi);
        lemma_repeat_round_trip(sch, g, k, occ, lines, p, i + 1);
        assert(seq![occ[i]] + occ.subrange(i + 1, m) =~= occ.subrange(i, m));
    }
}

proof fn lemma_member_round_trip(
    sch: Schema,
    g: int,
    k: int,
    occ: Seq<NodeModel>,
    lines: Seq<Seq<char>>,
    p: int,
)
    requires
        sch.wf(),
        unambiguous(sch),
        0 <= g < sch.groups@.len(),
        0 <= k < sch.groups@[g].members@.len(),
        count_fits(sch.groups@[g].members@[k].cardinality, occ.len()),
        forall|j: int|
            0 <= j < occ.len() ==> node_fits(sch, g, sch.groups@[g].members@[k].node, #[trigger] occ[j]),
        sits(
            lines,
            p,
            render_occurrences(sch, g, sch.groups@[g].members@[k].node, occ, occ.len() as int),
        ),
        after_member(
            sch,
            g,
            k,
            lines,
            p + render_occurrences(sch, g, sch.groups@[g].members@[k].node, occ, occ.len() as int).len(),
        ),
    ensures
        parse_member(sch, g, k, lines, p) == Ok::<(Seq<NodeModel>, int), ErrorModel>(
            (
                occ,
                p + render_occurrences(
                    sch,
                    g,
                    sch.groups@[g].members@[k].node,
                    occ,
                    occ.len() as int,
                ).len(),
            ),
        ),
    decreases sch.groups@.len() - g, 2int, 0int,
{
    let mb = sch.groups@[g].members@[k];
    let n = mb.node;
    let m = occ.len() as int;
    let all = render_occurrences(sch, g, n, occ, m);
    let q = p + all.len();
    assert(render_occurrences(sch, g, n, occ, 0) == Seq::<Seq<char>>::empty());
    if m == 0 {
        assert(occ =~= Seq::<NodeModel>::empty());
        assert(q == p);
        if mb.cardinality != Cardinality::One {
            assert(!opens(sch, n, lines, p));
        }
        if mb.cardinality == Cardinality::ZeroOrMore {
            lemma_repeat_round_trip(sch, g, k, occ, lines, p, 0);
            assert(occ.subrange(0, 0) =~= occ);
        }
    } else if mb.cardinality == Cardinality::One || mb.cardinality == Cardinality::Optional {
        assert(m == 1);
        lemma_occurrence_at(sch, g, n, occ, lines, p, 0);
        lemma_node_first_line(sch, g, n, occ[0]);
        let r = render_node(sch, g, n, occ[0]);
        assert(render_occurrences(sch, g, n, occ, 1) =~= r);
        assert(lines[p] == r[0]) by {
            assert(lines.subrange(p, p + r.len())[0] == r[0]);
        }
        lemma_node_round_trip(sch, g, n, occ[0], lines, p);
        assert(occ =~= seq![occ[0]]);
        assert(opens(sch, n, lines, p));
    } else {
        lemma_repeat_round_trip(sch, g, k, occ, lines, p, 0);
        assert(occ.subrange(0, m) =~= occ);
        lemma_occurrence_at(sch, g, n, occ, lines, p, 0);
        lemma_node_first_line(sch, g, n, occ[0]);
        let r = render_node(sch, g, n, occ[0]);
        assert(lines[p] == r[0]) by {
            assert(lines.subrange(p, p + r.len())[0] == r[0]);
        }
        assert(opens(sch, n, lines, p));
    }
}


/// The lines of member `k` of group `g`.
spec fn member_lines(sch: Schema, g: int, v: GroupModel, k: int) -> Seq<Seq<char>> {
    let occ = occurrences_of(v, k);
    render_occurrences(sch, g, sch.groups@[g].members@[k].node, occ, occ.len() as int)
}

proof fn lemma_next_member(sch: Schema, g: int, v: GroupModel, a: int, m: int)
    requires
        0 <= a <= m <= sch.groups@[g].members@.len(),
        render_members(sch, g, v, m).len() == render_members(sch, g, v, a).len(),
        render_members(sch, g, v, sch.groups@[g].members@.len() as int).len() > render_members(
            sch,
            g,
            v,
            a,
        ).len(),
    ensures
        exists|i: int|
            m <= i < sch.groups@[g].members@.len() && render_members(sch, g, v, i).len()
                == render_members(sch, g, v, a).len() && (#[trigger] member_lines(sch, g, v, i)).len()
                > 0,
    decreases sch.groups@[g].members@.len() - m,
{
    let nm = sch.groups@[g].members@.len() as int;
    if m == nm {
    } else if member_lines(sch, g, v, m).len() > 0 {
    } else {
        assert(render_members(sch, g, v, m + 1) == render_members(sch, g, v, m) + member_lines(
            sch,
            g,
            v,
            m,
        ));
        lemma_next_member(sch, g, v, a, m + 1);
    }
}

/// The lines of member `k` stand at their place among the group's lines.
proof fn lemma_member_at(sch: Schema, g: int, v: GroupModel, lines: Seq<Seq<char>>, pos: int, k: int)
    requires
        0 <= k < sch.groups@[g].members@.len(),
        sits(lines, pos, render_group(sch, g, v)),
    ensures
        sits(lines, pos + render_members(sch, g, v, k).len(), member_lines(sch, g, v, k)),
        render_members(sch, g, v, k + 1) == render_members(sch, g, v, k) + member_lines(
            sch,
            g,
            v,
            k,
        ),
        pos + render_members(sch, g, v, k + 1).len() <= pos + render_group(sch, g, v).len(),
{
    let nm = sch.groups@[g].members@.len() as int;
    let all = render_group(sch, g, v);
    let a = render_members(sch, g, v, k);
    let b = render_members(sch, g, v, k + 1);
    let ml = member_lines(sch, g, v, k);
    lemma_members_prefix(sch, g, v, k + 1, nm);
    assert(b == a + ml);
    assert(all.subrange(a.len() as int, b.len() as int) =~= ml) by {
        assert(all.subrange(0, b.len() as int) == b);
        assert forall|t: int| 0 <= t < b.len() - a.len() implies all.subrange(
            a.len() as int,
            b.len() as int,
        )[t] == ml[t] by {
            assert(all.subrange(0, b.len() as int)[a.len() + t] == b[a.len() + t]);
        }
    }
    lemma_sits_sub(lines, pos, all, a.len() as int, b.len() as int);
}

proof fn lemma_member_after(sch: Schema, g: int, v: GroupModel, lines: Seq<Seq<char>>, pos: int, k: int)
    requires
        sch.wf(),
        unambiguous(sch),
        group_fits(sch, g, v),
        0 <= k < sch.groups@[g].members@.len(),
        sits(lines, pos, render_group(sch, g, v)),
        pos + render_group(sch, g, v).len() == lines.len() || stops(
            sch,
            g,
            line_tag(sch, lines[pos + render_group(sch, g, v).len()]),
        ),
    ensures
        after_member(sch, g, k, lines, pos + render_members(sch, g, v, k + 1).len()),
{
    let ms = sch.groups@[g].members@;
    let nm = ms.len() as int;
    let all = render_group(sch, g, v);
    let q = pos + all.len();
    let pk = pos + render_members(sch, g, v, k + 1).len();
    lemma_member_at(sch, g, v, lines, pos, k);
    lemma_members_prefix(sch, g, v, k + 1, nm);
    if pk < q {
        lemma_next_member(sch, g, v, k + 1, k + 1);
        let i = choose|i: int|
            k + 1 <= i < nm && render_members(sch, g, v, i).len() == render_members(
                sch,
                g,
                v,
                k + 1,
            ).len() && (#[trigger] member_lines(sch, g, v, i)).len() > 0;
        lemma_member_at(sch, g, v, lines, pos, i);
        let occ = occurrences_of(v, i);
        let ni = ms[i].node;
        assert(occ.len() > 0) by {
            if occ.len() == 0 {
                assert(render_occurrences(sch, g, ni, occ, 0) == Seq::<Seq<char>>::empty());
            }
        }
        assert(node_fits(sch, g, ni, v.members[i][0]));
        assert forall|j: int| 0 <= j < occ.len() implies node_fits(sch, g, ni, #[trigger] occ[j]) by {
            assert(node_fits(sch, g, ni, v.members[i][j]));
        }
        lemma_occurrence_at(sch, g, ni, occ, lines, pos + render_members(sch, g, v, i).len(), 0);
        assert(render_occurrences(sch, g, ni, occ, 0) == Seq::<Seq<char>>::empty());
        lemma_node_first_line(sch, g, ni, occ[0]);
        let r = render_node(sch, g, ni, occ[0]);
        assert(lines[pk] == r[0]) by {
            assert(lines.subrange(pk, pk + r.len())[0] == r[0]);
        }
        assert(passes(sch, ms[k], node_anchor(sch, ms[i].node)));
        assert(line_tag(sch, lines[pk]) == node_anchor(sch, ni));
        assert(pk < lines.len());
        assert(after_node(sch, ms[k].node, lines, pk));
    } else {
        assert(pk == q);
        if q < lines.len() {
            let t = line_tag(sch, lines[q]);
            assert(stops(sch, g, t));
            assert(k >= 1 && ms[k].cardinality != Cardinality::One ==> t != node_anchor(
                sch,
                ms[k].node,
            ));
            assert(ms[0].cardinality == Cardinality::One);
            assert(sch.group_wf(g));
            assert(sch.node_wf(g, ms[k].node));
            assert(after_node(sch, ms[k].node, lines, pk));
        }
    }
}

proof fn lemma_members_round_trip(
    sch: Schema,
    g: int,
    v: GroupModel,
    lines: Seq<Seq<char>>,
    pos: int,
    k: int,
)
    requires
        sch.wf(),
        unambiguous(sch),
        group_fits(sch, g, v),
        0 <= k <= sch.groups@[g].members@.len(),
        sits(lines, pos, render_group(sch, g, v)),
        pos + render_group(sch, g, v).len() == lines.len() || stops(
            sch,
            g,
            line_tag(sch, lines[pos + render_group(sch, g, v).len()]),
        ),
    ensures
        parse_members(sch, g, k, lines, pos) == Ok::<(Seq<Seq<NodeModel>>, int), ErrorModel>(
            (v.members.subrange(0, k), pos + render_members(sch, g, v, k).len()),
        ),
    decreases sch.groups@.len() - g, 3int, k,
{
    if k == 0 {
        assert(v.members.subrange(0, 0) =~= Seq::<Seq<NodeModel>>::empty());
    } else {
        let j = k - 1;
        lemma_members_round_trip(sch, g, v, lines, pos, j);
        lemma_member_at(sch, g, v, lines, pos, j);
        lemma_member_after(sch, g, v, lines, pos, j);
        let occ = occurrences_of(v, j);
        let n = sch.groups@[g].members@[j].node;
        assert(occ == v.members[j]);
        assert(count_fits(sch.groups@[g].members@[j].cardinality, v.members[j].len()));
        assert forall|i: int| 0 <= i < occ.len() implies node_fits(sch, g, n, #[trigger] occ[i]) by {
            assert(node_fits(sch, g, n, v.members[j][i]));
        }
        lemma_member_round_trip(
            sch,
            g,
            j,
            occ,
            lines,
            pos + render_members(sch, g, v, j).len(),
        );
        assert(v.members.subrange(0, j).push(occ) =~= v.members.subrange(0, k));
    }
}

/// Parsing the lines of a fitting group, followed by a line that the group leaves
/// alone or by nothing, gives the group back and stops after its lines.
pub proof fn lemma_group_round_trip(
    sch: Schema,
    g: int,
    v: GroupModel,
    lines: Seq<Seq<char>>,
    pos: int,
)
    requires
        sch.wf(),
        unambiguous(sch),
        group_fits(sch, g, v),
        sits(lines, pos, render_group(sch, g, v)),
        pos + render_group(sch, g, v).len() == lines.len() || stops(
            sch,
            g,
            line_tag(sch, lines[pos + render_group(sch, g, v).len()]),
        ),
    ensures
        parse_group(sch, g, lines, pos) == Ok::<(GroupModel, int), ErrorModel>(
            (v, pos + render_group(sch, g, v).len()),
        ),
    decreases sch.groups@.len() - g, 4int, 0int,
{
    let nm = sch.groups@[g].members@.len() as int;
    lemma_members_round_trip(sch, g, v, lines, pos, nm);
    assert(v.members.subrange(0, nm) =~= v.members);
}


/// Whether every line holds no terminator and starts with no line break.
pub open spec fn lines_ok(sch: Schema, ls: Seq<Seq<char>>) -> bool {
    forall|i: int|
        0 <= i < ls.len() ==> free_of(#[trigger] ls[i], sch.delimiters.terminator) && strip_start(
            ls[i],
            line_breaks(),
        ) == ls[i]
}

proof fn lemma_lines_ok_concat(sch: Schema, a: Seq<Seq<char>>, b: Seq<Seq<char>>)
    requires
        lines_ok(sch, a),
        lines_ok(sch, b),
    ensures
        lines_ok(sch, a + b),
{
    assert forall|i: int| 0 <= i < (a + b).len() implies free_of(
        #[trigger] (a + b)[i],
        sch.delimiters.terminator,
    ) && strip_start((a + b)[i], line_breaks()) == (a + b)[i] by {
        if i < a.len() {
            assert((a + b)[i] == a[i]);
        } else {
            assert((a + b)[i] == b[i - a.len()]);
        }
    }
}

proof fn lemma_node_lines(sch: Schema, g: int, n: Node, v: NodeModel)
    requires
        sch.wf(),
        tags_unbroken(sch),
        0 <= g < sch.groups@.len(),
        node_fits(sch, g, n, v),
    ensures
        lines_ok(sch, render_node(sch, g, n, v)),
    decreases sch.groups@.len() - g, 0int, 0int,
{
    match n {
        Node::Segment(s) => {
            if let NodeModel::Segment(sv) = v {
                lemma_segment_line_shape(sch, s as int, sv);
                assert(render_node(sch, g, n, v) == seq![render_segment(sch, s as int, sv)]);
            }
        },
        Node::Group(c) => {
            if let NodeModel::Group(gv) = v {
                lemma_members_lines(sch, c as int, gv, sch.groups@[c as int].members@.len() as int);
            }
        },
    }
}

proof fn lemma_occurrences_lines(sch: Schema, g: int, n: Node, occ: Seq<NodeModel>, i: int)
    requires
        sch.wf(),
        tags_unbroken(sch),
        0 <= g < sch.groups@.len(),
        0 <= i <= occ.len(),
        forall|j: int| 0 <= j < occ.len() ==> node_fits(sch, g, n, #[trigger] occ[j]),
    ensures
        lines_ok(sch, render_occurrences(sch, g, n, occ, i)),
    decreases sch.groups@.len() - g, 1int, i,
{
    if i > 0 {
        lemma_occurrences_lines(sch, g, n, occ, i - 1);
        lemma_node_lines(sch, g, n, occ[i - 1]);
        lemma_lines_ok_concat(
            sch,
            render_occurrences(sch, g, n, occ, i - 1),
            render_node(sch, g, n, occ[i - 1]),
        );
    }
}

proof fn lemma_members_lines(sch: Schema, g: int, v: GroupModel, k: int)
    requires
        sch.wf(),
        tags_unbroken(sch),
        group_fits(sch, g, v),
        0 <= k <= sch.groups@[g].members@.len(),
    ensures
        lines_ok(sch, render_members(sch, g, v, k)),
    decreases sch.groups@.len() - g, 2int, k,
{
    if k > 0 {
        let j = k - 1;
        lemma_members_lines(sch, g, v, j);
        let occ = occurrences_of(v, j);
        let n = sch.groups@[g].members@[j].node;
        assert forall|i: int| 0 <= i < occ.len() implies node_fits(sch, g, n, #[trigger] occ[i]) by {
            assert(node_fits(sch, g, n, v.members[j][i]));
        }
        lemma_occurrences_lines(sch, g, n, occ, occ.len() as int);
        lemma_lines_ok_concat(
            sch,
            render_members(sch, g, v, j),
            render_occurrences(sch, g, n, occ, occ.len() as int),
        );
    }
}

/// Parsing the text of a fitting message gives the message back, for an
/// unambiguous schema whose tags start with no line break.
pub proof fn lemma_message_round_trip(sch: Schema, v: GroupModel)
    requires
        sch.wf(),
        unambiguous(sch),
        tags_unbroken(sch),
        group_fits(sch, 0, v),
    ensures
        parse_message(sch, render_message(sch, v)) == Ok::<GroupModel, ErrorModel>(v),
{
    let lines = render_group(sch, 0, v);
    lemma_members_lines(sch, 0, v, sch.groups@[0].members@.len() as int);
    lemma_lines_round_trip(lines, sch.delimiters.terminator);
    assert(lines.subrange(0, lines.len() as int) =~= lines);
    lemma_group_round_trip(sch, 0, v, lines, 0);
}

/// Rendering the message parsed from a fitting message's text gives that text again.
pub proof fn lemma_message_idempotent(sch: Schema, v: GroupModel)
    requires
        sch.wf(),
        unambiguous(sch),
        tags_unbroken(sch),
        group_fits(sch, 0, v),
    ensures
        parse_message(sch, render_message(sch, v)) is Ok,
        render_message(sch, parse_message(sch, render_message(sch, v))->Ok_0) == render_message(
            sch,
            v,
        ),
{
    lemma_message_round_trip(sch, v);
}


/// A parsed occurrence never moves the cursor back nor past the end; one that the
/// line at the cursor opens moves it forward.
proof fn lemma_node_advances(sch: Schema, g: int, n: Node, lines: Seq<Seq<char>>, pos: int)
    requires
        sch.wf(),
        0 <= g < sch.groups@.len(),
        sch.node_wf(g, n),
        0 <= pos <= lines.len(),
        parse_node(sch, g, n, lines, pos) is Ok,
    ensures
        pos <= parse_node(sch, g, n, lines, pos)->Ok_0.1 <= lines.len(),
        opens(sch, n, lines, pos) ==> pos < parse_node(sch, g, n, lines, pos)->Ok_0.1,
    decreases sch.groups@.len() - g, 0int, 0int,
{
    if let Node::Group(c) = n {
        assert(sch.group_wf(c as int));
        let n0 = sch.groups@[c as int].members@[0].node;
        assert(sch.node_wf(c as int, n0));
        assert(node_anchor(sch, n) == node_anchor(sch, n0));
        lemma_members_advance(sch, c as int, sch.groups@[c as int].members@.len() as int, lines, pos);
    }
}

proof fn lemma_repeat_advances(sch: Schema, g: int, n: Node, lines: Seq<Seq<char>>, pos: int)
    requires
        sch.wf(),
        0 <= g < sch.groups@.len(),
        sch.node_wf(g, n),
        0 <= pos <= lines.len(),
        parse_repeat(sch, g, n, lines, pos) is Ok,
    ensures
        pos <= parse_repeat(sch, g, n, lines, pos)->Ok_0.1 <= lines.len(),
        opens(sch, n, lines, pos) ==> pos < parse_repeat(sch, g, n, lines, pos)->Ok_0.1,
        !opens(sch, n, lines, parse_repeat(sch, g, n, lines, pos)->Ok_0.1),
    decreases sch.groups@.len() - g, 1int, lines.len() - pos,
{
    if opens(sch, n, lines, pos) {
        lemma_node_advances(sch, g, n, lines, pos);
        let p = parse_node(sch, g, n, lines, pos)->Ok_0.1;
        lemma_repeat_advances(sch, g, n, lines, p);
    }
}

proof fn lemma_member_advances(sch: Schema, g: int, k: int, lines: Seq<Seq<char>>, pos: int)
    requires
        sch.wf(),
        0 <= g < sch.groups@.len(),
        0 <= k < sch.groups@[g].members@.len(),
        0 <= pos <= lines.len(),
        parse_member(sch, g, k, lines, pos) is Ok,
    ensures
        pos <= parse_member(sch, g, k, lines, pos)->Ok_0.1 <= lines.len(),
        opens(sch, sch.groups@[g].members@[k].node, lines, pos) ==> pos < parse_member(
            sch,
            g,
            k,
            lines,
            pos,
        )->Ok_0.1,
    decreases sch.groups@.len() - g, 2int, 0int,
{
    let m = sch.groups@[g].members@[k];
    assert(sch.group_wf(g));
    assert(sch.node_wf(g, m.node));
    match m.cardinality {
        Cardinality::One => {
            lemma_node_advances(sch, g, m.node, lines, pos);
        },
        Cardinality::Optional => {
            if opens(sch, m.node, lines, pos) {
                lemma_node_advances(sch, g, m.node, lines, pos);
            }
        },
        _ => {
            lemma_repeat_advances(sch, g, m.node, lines, pos);
        },
    }
}

proof fn lemma_members_advance(sch: Schema, g: int, k: int, lines: Seq<Seq<char>>, pos: int)
    requires
        sch.wf(),
        0 <= g < sch.groups@.len(),
        0 <= k <= sch.groups@[g].members@.len(),
        0 <= pos <= lines.len(),
        parse_members(sch, g, k, lines, pos) is Ok,
    ensures
        pos <= parse_members(sch, g, k, lines, pos)->Ok_0.1 <= lines.len(),
        k >= 1 && opens(sch, sch.groups@[g].members@[0].node, lines, pos) ==> pos < parse_members(
            sch,
            g,
            k,
            lines,
            pos,
        )->Ok_0.1,
    decreases sch.groups@.len() - g, 3int, k,
{
    if k > 0 {
        lemma_members_advance(sch, g, k - 1, lines, pos);
        let p = parse_members(sch, g, k - 1, lines, pos)->Ok_0.1;
        lemma_member_advances(sch, g, k - 1, lines, p);
    }
}

/// A repetition ends at the end of the input or at a line that does not open its
/// node, never before where it began: the line that stops it is left for what
/// follows.
pub proof fn lemma_repeat_ends(sch: Schema, g: int, n: Node, lines: Seq<Seq<char>>, pos: int)
    requires
        sch.wf(),
        0 <= g < sch.groups@.len(),
        sch.node_wf(g, n),
        0 <= pos <= lines.len(),
        parse_repeat(sch, g, n, lines, pos) is Ok,
    ensures
        pos <= parse_repeat(sch, g, n, lines, pos)->Ok_0.1 <= lines.len(),
        !opens(sch, n, lines, parse_repeat(sch, g, n, lines, pos)->Ok_0.1),
{
    lemma_repeat_advances(sch, g, n, lines, pos);
}

} // verus!
