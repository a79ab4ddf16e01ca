//! Value trees and their mathematical models.
use vstd::prelude::*;

verus! {

/// A leaf value.
#[derive(Debug, PartialEq, Eq)]
pub enum Component {
    Absent,
    Text(Vec<char>),
    /// The index of a code in its table.
    Code(usize),
}

/// The value of one element of a segment line.
#[derive(Debug, PartialEq, Eq)]
pub enum Element {
    Simple(Component),
    Composite(Vec<Component>),
}

/// The value of a segment: for each field, its entries (one for a mandatory
/// field, at most one for an optional field, any number for a list).
#[derive(Debug, PartialEq, Eq)]
pub struct SegmentValue {
    pub fields: Vec<Vec<Element>>,
}

/// The value of a group member occurrence.
#[derive(Debug, PartialEq, Eq)]
pub enum NodeValue {
    Segment(SegmentValue),
    Group(GroupValue),
}

/// The value of a segment group: for each member, its occurrences in order.
#[derive(Debug, PartialEq, Eq)]
pub struct GroupValue {
    pub members: Vec<Vec<NodeValue>>,
}

pub enum ComponentModel {
    Absent,
    Text(Seq<char>),
    Code(nat),
}

pub enum ElementModel {
    Simple(ComponentModel),
    Composite(Seq<ComponentModel>),
}

pub struct SegmentModel {
    pub fields: Seq<Seq<ElementModel>>,
}

pub enum NodeModel {
    Segment(SegmentModel),
    Group(GroupModel),
}

pub struct GroupModel {
    pub members: Seq<Seq<NodeModel>>,
}

impl View for Component {
    type V = ComponentModel;

    open spec fn view(&self) -> ComponentModel {
        match self {
            Component::Absent => ComponentModel::Absent,
            Component::Text(t) => ComponentModel::Text(t@),
            Component::Code(c) => ComponentModel::Code(*c as nat),
        }
    }
}

pub open spec fn components_view(cs: Seq<Component>) -> Seq<ComponentModel> {
    cs.map_values(|c: Component| c@)
}

impl View for Element {
    type V = ElementModel;

    open spec fn view(&self) -> ElementModel {
        match self {
            Element::Simple(c) => ElementModel::Simple(c@),
            Element::Composite(cs) => ElementModel::Composite(components_view(cs@)),
        }
    }
}

pub open spec fn elements_view(es: Seq<Element>) -> Seq<ElementModel> {
    es.map_values(|e: Element| e@)
}

pub open spec fn fields_view(fs: Seq<Vec<Element>>) -> Seq<Seq<ElementModel>> {
    fs.map_values(|f: Vec<Element>| elements_view(f@))
}

impl View for SegmentValue {
    type V = SegmentModel;

    open spec fn view(&self) -> SegmentModel {
        SegmentModel { fields: fields_view(self.fields@) }
    }
}

pub open spec fn node_view(n: NodeValue) -> NodeModel
    decreases n,
{
    match n {
        NodeValue::Segment(s) => NodeModel::Segment(s@),
        NodeValue::Group(g) => NodeModel::Group(group_view(g)),
    }
}

pub open spec fn group_view(g: GroupValue) -> GroupModel
    decreases g,
{
    GroupModel {
        members: Seq::new(
            g.members@.len(),
            |k: int|
                Seq::new(
                    g.members@[k]@.len(),
                    |j: int|
                        if 0 <= k < g.members@.len() && 0 <= j < g.members@[k]@.len() {
                            node_view(g.members@[k]@[j])
                        } else {
                            NodeModel::Group(GroupModel { members: Seq::empty() })
                        },
                ),
        ),
    }
}

/// The models of a member's occurrences.
pub open spec fn occurrences_view(occ: Seq<NodeValue>) -> Seq<NodeModel> {
    occ.map_values(|n: NodeValue| node_view(n))
}

/// The models of a group's members.
pub open spec fn members_view(ms: Seq<Vec<NodeValue>>) -> Seq<Seq<NodeModel>> {
    ms.map_values(|o: Vec<NodeValue>| occurrences_view(o@))
}

/// A group's model holds the models of its members' occurrences.
pub proof fn lemma_group_view(g: GroupValue)
    ensures
        group_view(g).members == members_view(g.members@),
{
    assert forall|k: int| 0 <= k < g.members@.len() implies #[trigger] group_view(g).members[k]
        == members_view(g.members@)[k] by {
        assert(group_view(g).members[k] =~= occurrences_view(g.members@[k]@));
    }
    assert(group_view(g).members =~= members_view(g.members@));
}

impl View for GroupValue {
    type V = GroupModel;

    open spec fn view(&self) -> GroupModel {
        group_view(*self)
    }
}

} // verus!
