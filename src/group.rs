//! Segment groups and messages: a cursor over lines, driven by the members'
//! anchors and cardinalities.
use vstd::prelude::*;
use crate::error::{ErrorModel, ParseError};
use crate::schema::{Cardinality, Node, Schema};
use crate::segment::{display_outer, has_tag, parse_segment, parse_segment_at, render_segment};
use crate::text::{same_chars, split_on, views};
use crate::value::{
    GroupModel, GroupValue, NodeModel, NodeValue, lemma_group_view, members_view, node_view,
    occurrences_view,
};

verus! {

/// The tag of the segment that opens group `g`: the anchor of its first member.
pub open spec fn group_anchor(sch: Schema, g: int) -> Seq<char>
    decreases sch.groups@.len() - g,
{
    if 0 <= g < sch.groups@.len() && sch.groups@[g].members@.len() > 0 {
        match sch.groups@[g].members@[0].node {
            Node::Segment(s) => if s < sch.segments@.len() {
                sch.segments@[s as int].tag@
            } else {
                Seq::empty()
            },
            Node::Group(c) => if g < c < sch.groups@.len() {
                group_anchor(sch, c as int)
            } else {
                Seq::empty()
            },
        }
    } else {
        Seq::empty()
    }
}

/// The tag of the segment that opens node `n`.
pub open spec fn node_anchor(sch: Schema, n: Node) -> Seq<char> {
    match n {
        Node::Segment(s) => if s < sch.segments@.len() {
            sch.segments@[s as int].tag@
        } else {
            Seq::empty()
        },
        Node::Group(c) => group_anchor(sch, c as int),
    }
}

/// Whether the line at `pos` opens node `n`.
pub open spec fn opens(sch: Schema, n: Node, lines: Seq<Seq<char>>, pos: int) -> bool {
    0 <= pos < lines.len() && has_tag(lines[pos], node_anchor(sch, n), sch.delimiters.element)
}

/// The occurrences `acc` put in front of what `r` parsed.
pub open spec fn prepend(acc: Seq<NodeModel>, r: Result<(Seq<NodeModel>, int), ErrorModel>) -> Result<
    (Seq<NodeModel>, int),
    ErrorModel,
> {
    match r {
        Ok((ns, p)) => Ok((acc + ns, p)),
        Err(e) => Err(e),
    }
}

/// One occurrence of node `n`, a member of group `g`, from the cursor `pos`.
pub open spec fn parse_node(sch: Schema, g: int, n: Node, lines: Seq<Seq<char>>, pos: int) -> Result<
    (NodeModel, int),
    ErrorModel,
>
    decreases sch.groups@.len() - g, 0int, 0int,
{
    match n {
        Node::Segment(s) => match parse_segment_at(sch, s as int, lines, pos) {
            Ok((v, p)) => Ok((NodeModel::Segment(v), p)),
            Err(e) => Err(e),
        },
        Node::Group(c) => if g < c < sch.groups@.len() {
            match parse_group(sch, c as int, lines, pos) {
                Ok((v, p)) => Ok((NodeModel::Group(v), p)),
                Err(e) => Err(e),
            }
        } else {
            Err(
                ErrorModel::UnexpectedSegmentTag {
                    line: pos as usize,
                    expected: None,
                    found: Seq::empty(),
                },
            )
        },
    }
}

/// Occurrences of node `n` for as long as the line at the cursor opens it. A
/// repetition also stops after an occurrence that consumed no line.
pub open spec fn parse_repeat(
    sch: Schema,
    g: int,
    n: Node,
    lines: Seq<Seq<char>>,
    pos: int,
) -> Result<(Seq<NodeModel>, int), ErrorModel>
    decreases sch.groups@.len() - g, 1int, lines.len() - pos,
{
    if !opens(sch, n, lines, pos) {
        Ok((Seq::empty(), pos))
    } else {
        match parse_node(sch, g, n, lines, pos) {
            Err(e) => Err(e),
            Ok((v, p)) => if pos < p <= lines.len() {
                prepend(seq![v], parse_repeat(sch, g, n, lines, p))
            } else {
                Ok((seq![v], p))
            },
        }
    }
}

/// The occurrences of member `k` of group `g` from the cursor `pos`.
pub open spec fn parse_member(sch: Schema, g: int, k: int, lines: Seq<Seq<char>>, pos: int) -> Result<
    (Seq<NodeModel>, int),
    ErrorModel,
>
    decreases sch.groups@.len() - g, 2int, 0int,
{
    let m = sch.groups@[g].members@[k];
    match m.cardinality {
        Cardinality::One => match parse_node(sch, g, m.node, lines, pos) {
            Ok((v, p)) => Ok((seq![v], p)),
            Err(e) => Err(e),
        },
        Cardinality::Optional => if opens(sch, m.node, lines, pos) {
            match parse_node(sch, g, m.node, lines, pos) {
                Ok((v, p)) => Ok((seq![v], p)),
                Err(e) => Err(e),
            }
        } else {
            Ok((Seq::empty(), pos))
        },
        Cardinality::ZeroOrMore => parse_repeat(sch, g, m.node, lines, pos),
        Cardinality::OneOrMore => if opens(sch, m.node, lines, pos) {
            parse_repeat(sch, g, m.node, lines, pos)
        } else {
            Err(
                ErrorModel::EmptyRequiredRepetition {
                    line: pos as usize,
                    group: g as usize,
                    member: k as usize,
                },
            )
        },
    }
}

/// The first `k` members of group `g`, in order, from the cursor `pos`.
pub open spec fn parse_members(
    sch: Schema,
    g: int,
    k: int,
    lines: Seq<Seq<char>>,
    pos: int,
) -> Result<(Seq<Seq<NodeModel>>, int), ErrorModel>
    decreases sch.groups@.len() - g, 3int, k,
{
    if k <= 0 {
        Ok((Seq::empty(), pos))
    } else {
        match parse_members(sch, g, k - 1, lines, pos) {
            Err(e) => Err(e),
            Ok((ms, p)) => match parse_member(sch, g, k - 1, lines, p) {
                Err(e) => Err(e),
                Ok((occ, p2)) => Ok((ms.push(occ), p2)),
            },
        }
    }
}

/// Group `g` from the cursor `pos`, and the cursor after it.
pub open spec fn parse_group(sch: Schema, g: int, lines: Seq<Seq<char>>, pos: int) -> Result<
    (GroupModel, int),
    ErrorModel,
>
    decreases sch.groups@.len() - g, 4int, 0int,
{
    match parse_members(sch, g, sch.groups@[g].members@.len() as int, lines, pos) {
        Ok((ms, p)) => Ok((GroupModel { members: ms }, p)),
        Err(e) => Err(e),
    }
}


/// Once a prefix of the members fails, the whole group fails alike.
pub proof fn lemma_members_err(sch: Schema, g: int, k: int, n: int, lines: Seq<Seq<char>>, pos: int)
    requires
        0 <= k <= n,
        parse_members(sch, g, k, lines, pos) is Err,
    ensures
        parse_members(sch, g, n, lines, pos) == parse_members(sch, g, k, lines, pos),
    decreases n - k,
{
    if k < n {
        lemma_members_err(sch, g, k, n - 1, lines, pos);
    }
}

/// Putting `a` and then `v` in front is putting `a` followed by `v` in front.
pub proof fn lemma_prepend_twice(
    a: Seq<NodeModel>,
    v: NodeModel,
    r: Result<(Seq<NodeModel>, int), ErrorModel>,
)
    ensures
        prepend(a, prepend(seq![v], r)) == prepend(a.push(v), r),
{
    match r {
        Ok((ns, p)) => {
            assert(a + (seq![v] + ns) =~= a.push(v) + ns);
        },
        Err(e) => {},
    }
}

/// The tag of the segment that opens node `n`.
fn anchor_tag<'a>(sch: &'a Schema, n: Node) -> (r: &'a Vec<char>)
    requires
        sch.wf(),
        match n {
            Node::Segment(s) => s < sch.segments@.len(),
            Node::Group(c) => c < sch.groups@.len(),
        },
    ensures
        r@ == node_anchor(*sch, n),
{
    match n {
        Node::Segment(s) => &sch.segments[s].tag,
        Node::Group(c) => {
            let mut g: usize = c;
            loop
                invariant
                    sch.wf(),
                    g < sch.groups@.len(),
                    group_anchor(*sch, g as int) == node_anchor(*sch, n),
                decreases sch.groups@.len() - g,
            {
                assert(sch.group_wf(g as int));
                let m0 = sch.groups[g].members[0].node;
                assert(sch.node_wf(g as int, m0));
                match m0 {
                    Node::Segment(s) => {
                        return &sch.segments[s].tag;
                    },
                    Node::Group(c2) => {
                        g = c2;
                    },
                }
            }
        },
    }
}

/// Whether the line at `pos` opens node `n`.
fn opens_at(sch: &Schema, n: Node, lines: &Vec<Vec<char>>, pos: usize) -> (r: bool)
    requires
        sch.wf(),
        match n {
            Node::Segment(s) => s < sch.segments@.len(),
            Node::Group(c) => c < sch.groups@.len(),
        },
    ensures
        r == opens(*sch, n, views(lines@), pos as int),
{
    if pos >= lines.len() {
        return false;
    }
    let tag = anchor_tag(sch, n);
    let parts = split_on(lines[pos].as_slice(), sch.delimiters.element);
    proof {
        crate::text::lemma_split_nonempty(lines@[pos as int]@, sch.delimiters.element);
    }
    same_chars(parts[0].as_slice(), tag.as_slice())
}

/// One occurrence of node `n`, a member of group `g`; see `parse_node`.
fn parse_node_exec(sch: &Schema, g: usize, n: Node, lines: &Vec<Vec<char>>, pos: usize) -> (r: Result<
    (NodeValue, usize),
    ParseError,
>)
    requires
        sch.wf(),
        g < sch.groups@.len(),
        sch.node_wf(g as int, n),
        pos <= lines@.len(),
    ensures
        match r {
            Ok((v, p)) => parse_node(*sch, g as int, n, views(lines@), pos as int) == Ok::<
                (NodeModel, int),
                ErrorModel,
            >((node_view(v), p as int)) && p <= lines@.len(),
            Err(e) => parse_node(*sch, g as int, n, views(lines@), pos as int) == Err::<
                (NodeModel, int),
                ErrorModel,
            >(e@),
        },
    decreases sch.groups@.len() - g, 0int,
{
    match n {
        Node::Segment(s) => match parse_segment(sch, s, lines, pos) {
            Ok((v, p)) => Ok((NodeValue::Segment(v), p)),
            Err(e) => Err(e),
        },
        Node::Group(c) => match parse_sg(sch, c, lines, pos) {
            Ok((v, p)) => Ok((NodeValue::Group(v), p)),
            Err(e) => Err(e),
        },
    }
}

/// The occurrences of member `k` of group `g`; see `parse_member`.
fn parse_member_exec(sch: &Schema, g: usize, k: usize, lines: &Vec<Vec<char>>, pos: usize) -> (r: Result<
    (Vec<NodeValue>, usize),
    ParseError,
>)
    requires
        sch.wf(),
        g < sch.groups@.len(),
        k < sch.groups@[g as int].members@.len(),
        pos <= lines@.len(),
    ensures
        match r {
            Ok((occ, p)) => parse_member(*sch, g as int, k as int, views(lines@), pos as int)
                == Ok::<(Seq<NodeModel>, int), ErrorModel>((occurrences_view(occ@), p as int))
                && p <= lines@.len(),
            Err(e) => parse_member(*sch, g as int, k as int, views(lines@), pos as int) == Err::<
                (Seq<NodeModel>, int),
                ErrorModel,
            >(e@),
        },
    decreases sch.groups@.len() - g, 1int,
{
    let m = sch.groups[g].members[k];
    assert(sch.group_wf(g as int));
    assert(sch.node_wf(g as int, m.node));
    let ghost ls = views(lines@);
    let mut out: Vec<NodeValue> = Vec::new();
    assert(occurrences_view(out@) =~= Seq::<NodeModel>::empty());
    match m.cardinality {
        Cardinality::One => {
            match parse_node_exec(sch, g, m.node, lines, pos) {
                Ok((v, p)) => {
                    out.push(v);
                    assert(occurrences_view(out@) =~= seq![node_view(v)]);
                    return Ok((out, p));
                },
                Err(e) => {
                    return Err(e);
                },
            }
        },
        Cardinality::Optional => {
            if !opens_at(sch, m.node, lines, pos) {
                return Ok((out, pos));
            }
            match parse_node_exec(sch, g, m.node, lines, pos) {
                Ok((v, p)) => {
                    out.push(v);
                    assert(occurrences_view(out@) =~= seq![node_view(v)]);
                    return Ok((out, p));
                },
                Err(e) => {
                    return Err(e);
                },
            }
        },
        Cardinality::ZeroOrMore => {},
        Cardinality::OneOrMore => {
            if !opens_at(sch, m.node, lines, pos) {
                return Err(ParseError::EmptyRequiredRepetition { line: pos, group: g, member: k });
            }
        },
    }
    let mut cur: usize = pos;
    assert(prepend(occurrences_view(out@), parse_repeat(*sch, g as int, m.node, ls, cur as int))
        =~= parse_repeat(*sch, g as int, m.node, ls, pos as int)) by {
        match parse_repeat(*sch, g as int, m.node, ls, pos as int) {
            Ok((ns, p)) => {
                assert(Seq::<NodeModel>::empty() + ns =~= ns);
            },
            Err(e) => {},
        }
    }
    loop
        invariant
            sch.wf(),
            g < sch.groups@.len(),
            sch.node_wf(g as int, m.node),
            cur <= lines@.len(),
            ls == views(lines@),
            parse_member(*sch, g as int, k as int, ls, pos as int) == parse_repeat(
                *sch,
                g as int,
                m.node,
                ls,
                pos as int,
            ),
            parse_repeat(*sch, g as int, m.node, ls, pos as int) == prepend(
                occurrences_view(out@),
                parse_repeat(*sch, g as int, m.node, ls, cur as int),
            ),
        decreases lines@.len() - cur,
    {
        if !opens_at(sch, m.node, lines, cur) {
            assert(occurrences_view(out@) + Seq::<NodeModel>::empty() =~= occurrences_view(out@));
            return Ok((out, cur));
        }
        match parse_node_exec(sch, g, m.node, lines, cur) {
            Ok((v, p)) => {
                let ghost acc = occurrences_view(out@);
                out.push(v);
                assert(occurrences_view(out@) =~= acc.push(node_view(v)));
                if p <= cur {
                    assert(acc + seq![node_view(v)] =~= acc.push(node_view(v)));
                    return Ok((out, p));
                }
                proof {
                    lemma_prepend_twice(
                        acc,
                        node_view(v),
                        parse_repeat(*sch, g as int, m.node, ls, p as int),
                    );
                }
                cur = p;
            },
            Err(e) => {
                return Err(e);
            },
        }
    }
}

/// Parses group `g` from the cursor `pos`: each member in schema order, by its
/// cardinality. Returns the group and the cursor at the first line it did not
/// consume.
pub fn parse_sg(sch: &Schema, g: usize, lines: &Vec<Vec<char>>, pos: usize) -> (r: Result<
    (GroupValue, usize),
    ParseError,
>)
    requires
        sch.wf(),
        g < sch.groups@.len(),
        pos <= lines@.len(),
    ensures
        match r {
            Ok((v, p)) => parse_group(*sch, g as int, views(lines@), pos as int) == Ok::<
                (GroupModel, int),
                ErrorModel,
            >((v@, p as int)) && p <= lines@.len(),
            Err(e) => parse_group(*sch, g as int, views(lines@), pos as int) == Err::<
                (GroupModel, int),
                ErrorModel,
            >(e@),
        },
    decreases sch.groups@.len() - g, 2int,
{
    let ghost ls = views(lines@);
    let nm = sch.groups[g].members.len();
    let mut out: Vec<Vec<NodeValue>> = Vec::new();
    let mut cur: usize = pos;
    let mut k: usize = 0;
    assert(members_view(out@) =~= Seq::<Seq<NodeModel>>::empty());
    while k < nm
        invariant
            sch.wf(),
            g < sch.groups@.len(),
            nm == sch.groups@[g as int].members@.len(),
            0 <= k <= nm,
            cur <= lines@.len(),
            ls == views(lines@),
            parse_members(*sch, g as int, k as int, ls, pos as int) == Ok::<
                (Seq<Seq<NodeModel>>, int),
                ErrorModel,
            >((members_view(out@), cur as int)),
        decreases nm - k,
    {
        match parse_member_exec(sch, g, k, lines, cur) {
            Ok((occ, p)) => {
                let ghost before = members_view(out@);
                let ghost ov = occurrences_view(occ@);
                out.push(occ);
                assert(members_view(out@) =~= before.push(ov));
                cur = p;
            },
            Err(e) => {
                proof {
                    lemma_members_err(*sch, g as int, k + 1, nm as int, ls, pos as int);
                }
                return Err(e);
            },
        }
        k = k + 1;
    }
    let v = GroupValue { members: out };
    proof {
        lemma_group_view(v);
    }
    Ok((v, cur))
}


/// The occurrences of member `k`, none where the value has fewer members.
pub open spec fn occurrences_of(v: GroupModel, k: int) -> Seq<NodeModel> {
    if 0 <= k < v.members.len() {
        v.members[k]
    } else {
        Seq::empty()
    }
}

/// The lines of one occurrence of node `n`, a member of group `g`: a segment's
/// line unless it is suppressed, or a nested group's lines. An occurrence whose
/// shape differs from the schema renders no line.
pub open spec fn render_node(sch: Schema, g: int, n: Node, v: NodeModel) -> Seq<Seq<char>>
    decreases sch.groups@.len() - g, 0int, 0int,
{
    match n {
        Node::Segment(s) => match v {
            NodeModel::Segment(sv) => {
                let l = render_segment(sch, s as int, sv);
                if l.len() == 0 {
                    Seq::empty()
                } else {
                    seq![l]
                }
            },
            _ => Seq::empty(),
        },
        Node::Group(c) => match v {
            NodeModel::Group(gv) => if g < c < sch.groups@.len() {
                render_group(sch, c as int, gv)
            } else {
                Seq::empty()
            },
            _ => Seq::empty(),
        },
    }
}

/// The lines of the first `j` occurrences.
pub open spec fn render_occurrences(
    sch: Schema,
    g: int,
    n: Node,
    occ: Seq<NodeModel>,
    j: int,
) -> Seq<Seq<char>>
    decreases sch.groups@.len() - g, 1int, j,
{
    if j <= 0 {
        Seq::empty()
    } else {
        render_occurrences(sch, g, n, occ, j - 1) + render_node(sch, g, n, occ[j - 1])
    }
}

/// The lines of the first `k` members of group `g`.
pub open spec fn render_members(sch: Schema, g: int, v: GroupModel, k: int) -> Seq<Seq<char>>
    decreases sch.groups@.len() - g, 2int, k,
{
    if k <= 0 {
        Seq::empty()
    } else {
        let occ = occurrences_of(v, k - 1);
        render_members(sch, g, v, k - 1) + render_occurrences(
            sch,
            g,
            sch.groups@[g].members@[k - 1].node,
            occ,
            occ.len() as int,
        )
    }
}

/// The non-empty lines of group `g`, in schema order.
pub open spec fn render_group(sch: Schema, g: int, v: GroupModel) -> Seq<Seq<char>>
    decreases sch.groups@.len() - g, 3int, 0int,
{
    render_members(sch, g, v, sch.groups@[g].members@.len() as int)
}

/// The lines of one occurrence; see `render_node`.
fn display_node(sch: &Schema, g: usize, n: Node, v: &NodeValue) -> (r: Vec<Vec<char>>)
    requires
        sch.renderable(),
        g < sch.groups@.len(),
        sch.node_wf(g as int, n),
    ensures
        views(r@) == render_node(*sch, g as int, n, node_view(*v)),
    decreases sch.groups@.len() - g, 0int,
{
    match n {
        Node::Segment(s) => match v {
            NodeValue::Segment(sv) => {
                let l = display_outer(sch, s, sv);
                let mut out: Vec<Vec<char>> = Vec::new();
                if l.len() > 0 {
                    out.push(l);
                }
                assert(views(out@) =~= render_node(*sch, g as int, n, node_view(*v)));
                out
            },
            _ => {
                let out: Vec<Vec<char>> = Vec::new();
                assert(views(out@) =~= Seq::<Seq<char>>::empty());
                out
            },
        },
        Node::Group(c) => match v {
            NodeValue::Group(gv) => display_edifact_sg(sch, c, gv),
            _ => {
                let out: Vec<Vec<char>> = Vec::new();
                assert(views(out@) =~= Seq::<Seq<char>>::empty());
                out
            },
        },
    }
}

/// Renders group `g` as its non-empty lines (without terminators), in schema
/// order: each member's occurrences in turn; suppressed segments leave no line.
pub fn display_edifact_sg(sch: &Schema, g: usize, v: &GroupValue) -> (r: Vec<Vec<char>>)
    requires
        sch.renderable(),
        g < sch.groups@.len(),
    ensures
        views(r@) == render_group(*sch, g as int, v@),
    decreases sch.groups@.len() - g, 1int,
{
    let ghost m = v@;
    proof {
        lemma_group_view(*v);
    }
    let nm = sch.groups[g].members.len();
    let mut out: Vec<Vec<char>> = Vec::new();
    let mut k: usize = 0;
    assert(views(out@) =~= Seq::<Seq<char>>::empty());
    assert(sch.group_wf(g as int));
    while k < nm
        invariant
            sch.renderable(),
            g < sch.groups@.len(),
            sch.group_wf(g as int),
            nm == sch.groups@[g as int].members@.len(),
            0 <= k <= nm,
            m == v@,
            m.members == members_view(v.members@),
            views(out@) == render_members(*sch, g as int, m, k as int),
        decreases nm - k,
    {
        let n = sch.groups[g].members[k].node;
        assert(sch.node_wf(g as int, n));
        let ghost occ = occurrences_of(m, k as int);
        let ghost base = views(out@);
        if k < v.members.len() {
            let os = &v.members[k];
            assert(occ == occurrences_view(os@));
            let mut j: usize = 0;
            while j < os.len()
                invariant
                    sch.renderable(),
                    g < sch.groups@.len(),
                    sch.node_wf(g as int, n),
                    0 <= j <= os@.len(),
                    occ == occurrences_view(os@),
                    views(out@) == base + render_occurrences(*sch, g as int, n, occ, j as int),
                decreases os@.len() - j,
            {
                let mut ls = display_node(sch, g, n, &os[j]);
                let ghost prev = views(out@);
                let ghost add = views(ls@);
                out.append(&mut ls);
                assert(views(out@) =~= prev + add);
                assert(views(out@) =~= base + render_occurrences(*sch, g as int, n, occ, j + 1));
                j = j + 1;
            }
        } else {
            assert(occ.len() == 0);
            assert(views(out@) =~= base + render_occurrences(*sch, g as int, n, occ, 0));
        }
        k = k + 1;
    }
    out
}

} // verus!
