//! The schema model: the shape of a message, registered by the caller.
use vstd::prelude::*;
use crate::text::{contains_char, free_of, same_chars};

verus! {

/// The three delimiter characters of the text form.
#[derive(Clone, Copy, Debug, PartialEq, Eq, Structural)]
pub struct Delimiters {
    /// Separates the components of a composite element (conventionally `:`).
    pub component: char,
    /// Separates the elements of a segment line (conventionally `+`).
    pub element: char,
    /// Ends each segment line (conventionally `'`).
    pub terminator: char,
}

impl Delimiters {
    /// The conventional EDIFACT triad `:`, `+`, `'`.
    pub fn edifact() -> (r: Delimiters)
        ensures
            r.component == ':',
            r.element == '+',
            r.terminator == '\'',
    {
        Delimiters { component: ':', element: '+', terminator: '\'' }
    }

    pub open spec fn wf(&self) -> bool {
        &&& self.component != self.element
        &&& self.component != self.terminator
        &&& self.element != self.terminator
        &&& self.terminator != '\n'
        &&& self.terminator != '\r'
    }

    /// Whether `s` holds none of the delimiters.
    pub open spec fn plain(&self, s: Seq<char>) -> bool {
        free_of(s, self.component) && free_of(s, self.element) && free_of(s, self.terminator)
    }
}

/// A lookup table for numeric-coded components: the canonical text of each code.
/// A code's value is its index in `codes`.
#[derive(Debug)]
pub struct CodeTable {
    pub codes: Vec<Vec<char>>,
    /// Characters stripped from both ends of a token before lookup.
    pub padding: Vec<char>,
}

/// The kind of a leaf value.
#[derive(Clone, Copy, Debug, PartialEq, Eq, Structural)]
pub enum LeafKind {
    /// Free text, used as it stands.
    Text,
    /// A code of the table with this index in the schema.
    Coded(usize),
}

/// One component of a composite element.
#[derive(Clone, Copy, Debug, PartialEq, Eq, Structural)]
pub struct ComponentSpec {
    pub kind: LeafKind,
    pub mandatory: bool,
}

/// What a field of a segment holds.
#[derive(Debug)]
pub enum ElementSpec {
    /// A single component, not split further.
    Simple(LeafKind),
    /// A composite element: components joined by the component delimiter.
    Composite(Vec<ComponentSpec>),
}

/// How often a field occurs.
#[derive(Clone, Copy, Debug, PartialEq, Eq, Structural)]
pub enum Occurrence {
    Mandatory,
    Optional,
    /// Zero or more entries; only allowed as the last field of a segment, where it
    /// takes every remaining element.
    List,
}

#[derive(Debug)]
pub struct FieldSpec {
    pub element: ElementSpec,
    pub occurrence: Occurrence,
}

/// A segment: one line, made of a tag and fields.
#[derive(Debug)]
pub struct SegmentSpec {
    pub tag: Vec<char>,
    pub fields: Vec<FieldSpec>,
}

/// The multiplicity of a group member.
#[derive(Clone, Copy, Debug, PartialEq, Eq, Structural)]
pub enum Cardinality {
    One,
    Optional,
    ZeroOrMore,
    OneOrMore,
}

/// What a group member is: a segment or a nested group, by index in the schema.
#[derive(Clone, Copy, Debug, PartialEq, Eq, Structural)]
pub enum Node {
    Segment(usize),
    Group(usize),
}

#[derive(Clone, Copy, Debug, PartialEq, Eq, Structural)]
pub struct MemberSpec {
    pub node: Node,
    pub cardinality: Cardinality,
}

/// A segment group: an ordered list of members; the first one is the anchor.
#[derive(Debug)]
pub struct GroupSpec {
    pub members: Vec<MemberSpec>,
}

/// A message schema: its code tables, segments and groups, and the delimiters.
/// Group 0 is the message itself. A nested group has a larger index than the
/// group that holds it.
#[derive(Debug)]
pub struct Schema {
    pub delimiters: Delimiters,
    pub tables: Vec<CodeTable>,
    pub segments: Vec<SegmentSpec>,
    pub groups: Vec<GroupSpec>,
}

impl Schema {
    pub open spec fn table_codes(&self, t: int) -> Seq<Seq<char>> {
        self.tables@[t].codes@.map_values(|c: Vec<char>| c@)
    }

    pub open spec fn table_padding(&self, t: int) -> Seq<char> {
        self.tables@[t].padding@
    }

    pub open spec fn leaf_wf(&self, k: LeafKind) -> bool {
        match k {
            LeafKind::Text => true,
            LeafKind::Coded(t) => t < self.tables@.len(),
        }
    }

    pub open spec fn element_wf(&self, e: ElementSpec) -> bool {
        match e {
            ElementSpec::Simple(k) => self.leaf_wf(k),
            ElementSpec::Composite(cs) => cs@.len() >= 1 && forall|i: int|
                0 <= i < cs@.len() ==> self.leaf_wf(#[trigger] cs@[i].kind),
        }
    }

    pub open spec fn table_wf(&self, t: int) -> bool {
        let codes = self.table_codes(t);
        forall|i: int, j: int|
            0 <= i < codes.len() && 0 <= j < codes.len() && i != j ==> codes[i] != codes[j]
    }

    /// Every field of segment `s` refers to code tables that exist.
    pub open spec fn fields_wf(&self, s: int) -> bool {
        let seg = self.segments@[s];
        forall|f: int| 0 <= f < seg.fields@.len() ==> self.element_wf(#[trigger] seg.fields@[f].element)
    }

    pub open spec fn segment_wf(&self, s: int) -> bool {
        let seg = self.segments@[s];
        &&& seg.tag@.len() >= 1
        &&& self.delimiters.plain(seg.tag@)
        &&& self.fields_wf(s)
        &&& forall|f: int|
            0 <= f < seg.fields@.len() && #[trigger] seg.fields@[f].occurrence == Occurrence::List
                ==> f == seg.fields@.len() - 1
    }

    pub open spec fn node_wf(&self, g: int, n: Node) -> bool {
        match n {
            Node::Segment(s) => s < self.segments@.len(),
            Node::Group(c) => g < c < self.groups@.len(),
        }
    }

    pub open spec fn group_wf(&self, g: int) -> bool {
        let ms = self.groups@[g].members@;
        &&& ms.len() >= 1
        &&& forall|k: int| 0 <= k < ms.len() ==> self.node_wf(g, #[trigger] ms[k].node)
    }

    /// The schema can be rendered: every index that rendering follows is in
    /// range and nested groups come after the group that holds them. A list
    /// field may stand anywhere.
    pub open spec fn renderable(&self) -> bool {
        &&& self.groups@.len() >= 1
        &&& forall|s: int| 0 <= s < self.segments@.len() ==> #[trigger] self.fields_wf(s)
        &&& forall|g: int| 0 <= g < self.groups@.len() ==> #[trigger] self.group_wf(g)
    }

    /// The schema is well formed: every index it holds is in range, nested groups
    /// come after the group that holds them, tags are non-empty and free of
    /// delimiters, and the codes of each table are distinct.
    pub open spec fn wf(&self) -> bool {
        &&& self.delimiters.wf()
        &&& self.groups@.len() >= 1
        &&& forall|t: int| 0 <= t < self.tables@.len() ==> #[trigger] self.table_wf(t)
        &&& forall|s: int| 0 <= s < self.segments@.len() ==> #[trigger] self.segment_wf(s)
        &&& forall|g: int| 0 <= g < self.groups@.len() ==> #[trigger] self.group_wf(g)
    }
}

impl Delimiters {
    /// Whether the three delimiters are distinct and the terminator is no line break.
    pub fn is_valid(&self) -> (r: bool)
        ensures
            r == self.wf(),
    {
        self.component != self.element && self.component != self.terminator && self.element
            != self.terminator && self.terminator != '\n' && self.terminator != '\r'
    }

    /// Whether `s` holds none of the delimiters.
    pub fn is_plain(&self, s: &Vec<char>) -> (r: bool)
        ensures
            r == self.plain(s@),
    {
        !contains_char(s.as_slice(), self.component) && !contains_char(
            s.as_slice(),
            self.element,
        ) && !contains_char(s.as_slice(), self.terminator)
    }
}

impl Schema {
    fn leaf_ok(&self, k: LeafKind) -> (r: bool)
        ensures
            r == self.leaf_wf(k),
    {
        match k {
            LeafKind::Text => true,
            LeafKind::Coded(t) => t < self.tables.len(),
        }
    }

    fn kinds_ok(&self, cs: &Vec<ComponentSpec>) -> (r: bool)
        ensures
            r == forall|j: int| 0 <= j < cs@.len() ==> self.leaf_wf(#[trigger] cs@[j].kind),
    {
        let mut i: usize = 0;
        while i < cs.len()
            invariant
                0 <= i <= cs@.len(),
                forall|j: int| 0 <= j < i ==> self.leaf_wf(#[trigger] cs@[j].kind),
            decreases cs@.len() - i,
        {
            if !self.leaf_ok(cs[i].kind) {
                assert(!self.leaf_wf(cs@[i as int].kind));
                return false;
            }
            i = i + 1;
        }
        true
    }

    fn element_ok(&self, e: &ElementSpec) -> (r: bool)
        ensures
            r == self.element_wf(*e),
    {
        match e {
            ElementSpec::Simple(k) => self.leaf_ok(*k),
            ElementSpec::Composite(cs) => cs.len() > 0 && self.kinds_ok(cs),
        }
    }

    fn table_ok(&self, t: usize) -> (r: bool)
        requires
            t < self.tables@.len(),
        ensures
            r == self.table_wf(t as int),
    {
        let codes = &self.tables[t].codes;
        let ghost cs = self.table_codes(t as int);
        let mut i: usize = 0;
        while i < codes.len()
            invariant
                0 <= i <= codes@.len(),
                t < self.tables@.len(),
                codes == self.tables@[t as int].codes,
                cs == codes@.map_values(|c: Vec<char>| c@),
                cs == self.table_codes(t as int),
                forall|a: int, b: int| 0 <= a < i && 0 <= b < i && a != b ==> cs[a] != cs[b],
            decreases codes@.len() - i,
        {
            let mut j: usize = 0;
            while j < i
                invariant
                    0 <= j <= i < codes@.len(),
                    t < self.tables@.len(),
                    codes == self.tables@[t as int].codes,
                    cs == codes@.map_values(|c: Vec<char>| c@),
                    cs == self.table_codes(t as int),
                    forall|a: int, b: int| 0 <= a < i && 0 <= b < i && a != b ==> cs[a] != cs[b],
                    forall|b: int| 0 <= b < j ==> cs[i as int] != cs[b],
                decreases i - j,
            {
                if same_chars(codes[i].as_slice(), codes[j].as_slice()) {
                    assert(cs[i as int] == cs[j as int]);
                    return false;
                }
                j = j + 1;
            }
            i = i + 1;
        }
        true
    }

    fn segment_ok(&self, s: usize) -> (r: bool)
        requires
            s < self.segments@.len(),
        ensures
            r == self.segment_wf(s as int),
    {
        let seg = &self.segments[s];
        if seg.tag.len() == 0 || !self.delimiters.is_plain(&seg.tag) {
            return false;
        }
        let nf = seg.fields.len();
        let mut f: usize = 0;
        while f < nf
            invariant
                0 <= f <= nf,
                seg == self.segments@[s as int],
                nf == seg.fields@.len(),
                forall|j: int| 0 <= j < f ==> self.element_wf(#[trigger] seg.fields@[j].element),
                forall|j: int|
                    0 <= j < f && #[trigger] seg.fields@[j].occurrence == Occurrence::List ==> j
                        == nf - 1,
            decreases nf - f,
        {
            if !self.element_ok(&seg.fields[f].element) {
                return false;
            }
            let list = match seg.fields[f].occurrence {
                Occurrence::List => true,
                _ => false,
            };
            if list && f + 1 != nf {
                return false;
            }
            f = f + 1;
        }
        true
    }

    fn group_ok(&self, g: usize) -> (r: bool)
        requires
            g < self.groups@.len(),
        ensures
            r == self.group_wf(g as int),
    {
        let ms = &self.groups[g].members;
        if ms.len() == 0 {
            return false;
        }
        let mut k: usize = 0;
        while k < ms.len()
            invariant
                0 <= k <= ms@.len(),
                g < self.groups@.len(),
                ms == self.groups@[g as int].members,
                forall|j: int| 0 <= j < k ==> self.node_wf(g as int, #[trigger] ms@[j].node),
            decreases ms@.len() - k,
        {
            let ok = match ms[k].node {
                Node::Segment(s) => s < self.segments.len(),
                Node::Group(c) => g < c && c < self.groups.len(),
            };
            if !ok {
                return false;
            }
            k = k + 1;
        }
        true
    }

    fn fields_ok(&self, s: usize) -> (r: bool)
        requires
            s < self.segments@.len(),
        ensures
            r == self.fields_wf(s as int),
    {
        let seg = &self.segments[s];
        let mut f: usize = 0;
        while f < seg.fields.len()
            invariant
                0 <= f <= seg.fields@.len(),
                seg == self.segments@[s as int],
                forall|j: int| 0 <= j < f ==> self.element_wf(#[trigger] seg.fields@[j].element),
            decreases seg.fields@.len() - f,
        {
            if !self.element_ok(&seg.fields[f].element) {
                return false;
            }
            f = f + 1;
        }
        true
    }

    /// A well-formed schema can be rendered.
    pub proof fn lemma_wf_renderable(&self)
        requires
            self.wf(),
        ensures
            self.renderable(),
    {
        assert forall|s: int| 0 <= s < self.segments@.len() implies #[trigger] self.fields_wf(s) by {
            assert(self.segment_wf(s));
        }
    }

    /// Whether the schema can be rendered (see `renderable`); the renderers ask it
    /// of every schema they are given.
    pub fn is_renderable(&self) -> (r: bool)
        ensures
            r == self.renderable(),
    {
        if self.groups.len() == 0 {
            return false;
        }
        let mut s: usize = 0;
        while s < self.segments.len()
            invariant
                0 <= s <= self.segments@.len(),
                forall|j: int| 0 <= j < s ==> #[trigger] self.fields_wf(j),
            decreases self.segments@.len() - s,
        {
            if !self.fields_ok(s) {
                return false;
            }
            s = s + 1;
        }
        let mut g: usize = 0;
        while g < self.groups.len()
            invariant
                0 <= g <= self.groups@.len(),
                forall|j: int| 0 <= j < s ==> #[trigger] self.fields_wf(j),
                s == self.segments@.len(),
                forall|j: int| 0 <= j < g ==> #[trigger] self.group_wf(j),
            decreases self.groups@.len() - g,
        {
            if !self.group_ok(g) {
                return false;
            }
            g = g + 1;
        }
        true
    }

    /// Whether the schema is well formed (see `wf`); the engine asks it of every
    /// schema it is given.
    pub fn is_valid(&self) -> (r: bool)
        ensures
            r == self.wf(),
    {
        if !self.delimiters.is_valid() || self.groups.len() == 0 {
            return false;
        }
        let mut t: usize = 0;
        while t < self.tables.len()
            invariant
                0 <= t <= self.tables@.len(),
                forall|j: int| 0 <= j < t ==> #[trigger] self.table_wf(j),
            decreases self.tables@.len() - t,
        {
            if !self.table_ok(t) {
                return false;
            }
            t = t + 1;
        }
        let mut s: usize = 0;
        while s < self.segments.len()
            invariant
                0 <= s <= self.segments@.len(),
                forall|j: int| 0 <= j < s ==> #[trigger] self.segment_wf(j),
            decreases self.segments@.len() - s,
        {
            if !self.segment_ok(s) {
                return false;
            }
            s = s + 1;
        }
        let mut g: usize = 0;
        while g < self.groups.len()
            invariant
                0 <= g <= self.groups@.len(),
                forall|j: int| 0 <= j < g ==> #[trigger] self.group_wf(j),
            decreases self.groups@.len() - g,
        {
            if !self.group_ok(g) {
                return false;
            }
            g = g + 1;
        }
        true
    }
}

} // verus!
