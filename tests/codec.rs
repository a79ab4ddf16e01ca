use edifact_codec::error::ParseError;
use edifact_codec::group::{display_edifact_sg, parse_sg};
use edifact_codec::message::{display_edifact, parse_msg, split_lines};
use edifact_codec::schema::{
    Cardinality, CodeTable, ComponentSpec, Delimiters, ElementSpec, FieldSpec, GroupSpec,
    LeafKind, MemberSpec, Node, Occurrence, Schema, SegmentSpec,
};
use edifact_codec::segment::{display_outer, parse_outer, parse_segment};
use edifact_codec::element::{display_inner, parse_element, parse_inner};
use edifact_codec::value::{Component, Element, GroupValue, NodeValue, SegmentValue};

fn chars(s: &str) -> Vec<char> {
    s.chars().collect()
}

fn text(v: &[char]) -> String {
    v.iter().collect()
}

fn table(codes: &[&str], padding: &str) -> CodeTable {
    CodeTable { codes: codes.iter().map(|c| chars(c)).collect(), padding: chars(padding) }
}

fn comp(kind: LeafKind, mandatory: bool) -> ComponentSpec {
    ComponentSpec { kind, mandatory }
}

fn field(element: ElementSpec, occurrence: Occurrence) -> FieldSpec {
    FieldSpec { element, occurrence }
}

fn member(node: Node, cardinality: Cardinality) -> MemberSpec {
    MemberSpec { node, cardinality }
}

/// Segments: 0 LOC [mandatory composite (code, text), optional text];
/// 1 DTM [mandatory text]; 2 NAD [mandatory text, list of text]; 3 UNH [mandatory text].
/// Groups: 0 message [UNH one, group 1 one-or-more, DTM optional];
/// 1 [LOC one, DTM zero-or-more].
fn schema() -> Schema {
    Schema {
        delimiters: Delimiters::edifact(),
        tables: vec![table(&["1", "9", "12"], " 0")],
        segments: vec![
            SegmentSpec {
                tag: chars("LOC"),
                fields: vec![
                    field(
                        ElementSpec::Composite(vec![
                            comp(LeafKind::Coded(0), true),
                            comp(LeafKind::Text, false),
                        ]),
                        Occurrence::Mandatory,
                    ),
                    field(ElementSpec::Simple(LeafKind::Text), Occurrence::Optional),
                ],
            },
            SegmentSpec {
                tag: chars("DTM"),
                fields: vec![field(ElementSpec::Simple(LeafKind::Text), Occurrence::Mandatory)],
            },
            SegmentSpec {
                tag: chars("NAD"),
                fields: vec![
                    field(ElementSpec::Simple(LeafKind::Text), Occurrence::Mandatory),
                    field(ElementSpec::Simple(LeafKind::Text), Occurrence::List),
                ],
            },
            SegmentSpec {
                tag: chars("UNH"),
                fields: vec![field(ElementSpec::Simple(LeafKind::Text), Occurrence::Mandatory)],
            },
        ],
        groups: vec![
            GroupSpec {
                members: vec![
                    member(Node::Segment(3), Cardinality::One),
                    member(Node::Group(1), Cardinality::OneOrMore),
                    member(Node::Segment(1), Cardinality::Optional),
                ],
            },
            GroupSpec {
                members: vec![
                    member(Node::Segment(0), Cardinality::One),
                    member(Node::Segment(1), Cardinality::ZeroOrMore),
                ],
            },
        ],
    }
}

fn composite_specs() -> Vec<ComponentSpec> {
    vec![comp(LeafKind::Coded(0), true), comp(LeafKind::Text, false)]
}

fn is_text(c: &Component, s: &str) -> bool {
    match c {
        Component::Text(t) => text(t) == s,
        _ => false,
    }
}

fn is_code(c: &Component, i: usize) -> bool {
    match c {
        Component::Code(k) => *k == i,
        _ => false,
    }
}

fn is_absent(c: &Component) -> bool {
    matches!(c, Component::Absent)
}

fn simple_text(e: &Element, s: &str) -> bool {
    match e {
        Element::Simple(c) => is_text(c, s),
        _ => false,
    }
}

fn segment_of(n: &NodeValue) -> &SegmentValue {
    match n {
        NodeValue::Segment(s) => s,
        _ => panic!("expected a segment"),
    }
}

fn group_of(n: &NodeValue) -> &GroupValue {
    match n {
        NodeValue::Group(g) => g,
        _ => panic!("expected a group"),
    }
}

#[test]
fn composite_code_and_text() {
    let sch = schema();
    let r = parse_inner(&sch, &composite_specs(), &chars("12:hello"), 0, 0).unwrap();
    assert_eq!(r.len(), 2);
    assert!(is_code(&r[0], 2));
    assert!(is_text(&r[1], "hello"));
    assert_eq!(text(&display_inner(&sch, &composite_specs(), &r)), "12:hello");
}

#[test]
fn composite_trailing_absent_trimmed() {
    let sch = schema();
    let specs = vec![
        comp(LeafKind::Text, true),
        comp(LeafKind::Text, false),
        comp(LeafKind::Text, false),
    ];
    let v = vec![Component::Text(chars("A")), Component::Absent, Component::Absent];
    assert_eq!(text(&display_inner(&sch, &specs, &v)), "A");
    let back = parse_inner(&sch, &specs, &chars("A"), 0, 0).unwrap();
    assert!(is_text(&back[0], "A"));
    assert!(is_absent(&back[1]));
    assert!(is_absent(&back[2]));
}

#[test]
fn composite_inner_absent_kept() {
    let sch = schema();
    let specs = vec![
        comp(LeafKind::Text, true),
        comp(LeafKind::Text, false),
        comp(LeafKind::Text, false),
    ];
    let v = vec![Component::Text(chars("A")), Component::Absent, Component::Text(chars("C"))];
    assert_eq!(text(&display_inner(&sch, &specs, &v)), "A::C");
}

#[test]
fn composite_code_is_cleaned() {
    let sch = schema();
    let r = parse_inner(&sch, &composite_specs(), &chars(" 012 :x"), 3, 1).unwrap();
    assert!(is_code(&r[0], 2));
    assert_eq!(text(&display_inner(&sch, &composite_specs(), &r)), "12:x");
}

#[test]
fn composite_too_many_components() {
    let sch = schema();
    let r = parse_inner(&sch, &composite_specs(), &chars("1:a:b"), 4, 2);
    assert_eq!(r.err(), Some(ParseError::TooManyFields { line: 4, element: Some(2), raw: chars("1:a:b") }));
}

#[test]
fn composite_unknown_code() {
    let sch = schema();
    let r = parse_inner(&sch, &composite_specs(), &chars("77:a"), 5, 1);
    assert_eq!(
        r.err(),
        Some(ParseError::LeafTypeConversionError {
            line: 5,
            field: 1,
            component: 0,
            table: 0,
            raw_token: chars("77"),
        })
    );
}

#[test]
fn composite_missing_mandatory_component() {
    let sch = schema();
    let specs = vec![comp(LeafKind::Text, false), comp(LeafKind::Text, true)];
    let r = parse_inner(&sch, &specs, &chars("a"), 2, 3);
    assert_eq!(
        r.err(),
        Some(ParseError::MissingMandatoryField { line: 2, field: 3, component: 1 })
    );
}

#[test]
fn composite_empty_mandatory_text_kept_empty() {
    let sch = schema();
    let specs = vec![comp(LeafKind::Text, true), comp(LeafKind::Text, false)];
    let r = parse_inner(&sch, &specs, &chars(":b"), 0, 0).unwrap();
    assert!(is_text(&r[0], ""));
    assert!(is_text(&r[1], "b"));
}

#[test]
fn element_simple_keeps_component_delimiter() {
    let sch = schema();
    let r = parse_element(&sch, &ElementSpec::Simple(LeafKind::Text), &chars("a:b"), 0, 0).unwrap();
    assert!(simple_text(&r, "a:b"));
}

#[test]
fn segment_with_optional_present() {
    let sch = schema();
    let v = parse_outer(&sch, 0, &chars("LOC+9+extra'"), 0).unwrap();
    assert_eq!(v.fields.len(), 2);
    assert_eq!(v.fields[0].len(), 1);
    match &v.fields[0][0] {
        Element::Composite(cs) => {
            assert!(is_code(&cs[0], 1));
            assert!(is_absent(&cs[1]));
        }
        _ => panic!("expected a composite"),
    }
    assert_eq!(v.fields[1].len(), 1);
    assert!(simple_text(&v.fields[1][0], "extra"));
    assert_eq!(text(&display_outer(&sch, 0, &v)), "LOC+9+extra");
}

#[test]
fn segment_with_optional_absent() {
    let sch = schema();
    let v = parse_outer(&sch, 0, &chars("LOC+9'"), 0).unwrap();
    assert_eq!(v.fields[0].len(), 1);
    assert_eq!(v.fields[1].len(), 0);
    assert_eq!(text(&display_outer(&sch, 0, &v)), "LOC+9");
}

#[test]
fn segment_all_absent_is_suppressed() {
    let sch = schema();
    let v = SegmentValue { fields: vec![vec![], vec![]] };
    assert_eq!(text(&display_outer(&sch, 0, &v)), "");
    let absent = SegmentValue {
        fields: vec![vec![Element::Composite(vec![Component::Absent, Component::Absent])], vec![]],
    };
    assert_eq!(text(&display_outer(&sch, 0, &absent)), "");
}

#[test]
fn segment_wrong_tag() {
    let sch = schema();
    let r = parse_outer(&sch, 0, &chars("DTM+1"), 7);
    assert_eq!(r.err(), Some(ParseError::UnexpectedSegmentTag { line: 7, expected: Some(0), found: chars("DTM") }));
}

#[test]
fn segment_too_many_fields() {
    let sch = schema();
    let r = parse_outer(&sch, 1, &chars("DTM+1+2"), 3);
    assert_eq!(r.err(), Some(ParseError::TooManyFields { line: 3, element: None, raw: chars("DTM+1+2") }));
}

#[test]
fn segment_missing_mandatory_field() {
    let sch = schema();
    let r = parse_outer(&sch, 1, &chars("DTM"), 1);
    assert_eq!(
        r.err(),
        Some(ParseError::MissingMandatoryField { line: 1, field: 0, component: 0 })
    );
}

#[test]
fn segment_list_field_takes_the_rest() {
    let sch = schema();
    let v = parse_outer(&sch, 2, &chars("NAD+x+a++b"), 0).unwrap();
    assert_eq!(v.fields[1].len(), 2);
    assert!(simple_text(&v.fields[1][0], "a"));
    assert!(simple_text(&v.fields[1][1], "b"));
    assert_eq!(text(&display_outer(&sch, 2, &v)), "NAD+x+a+b");
    let empty = SegmentValue {
        fields: vec![vec![Element::Simple(Component::Text(chars("x")))], vec![]],
    };
    assert_eq!(text(&display_outer(&sch, 2, &empty)), "NAD+x");
}

#[test]
fn segment_at_cursor() {
    let sch = schema();
    let lines = vec![chars("UNH+1"), chars("DTM+5")];
    let (v, p) = parse_segment(&sch, 1, &lines, 1).unwrap();
    assert_eq!(p, 2);
    assert!(simple_text(&v.fields[0][0], "5"));
    assert_eq!(
        parse_segment(&sch, 1, &lines, 2).err(),
        Some(ParseError::UnexpectedSegmentTag { line: 2, expected: Some(1), found: vec![] })
    );
}

#[test]
fn repetition_stops_at_other_tag() {
    // group [one-or-more X, optional Y] on lines [X, X, Z]
    let mut sch = schema();
    sch.groups = vec![
        GroupSpec { members: vec![member(Node::Group(1), Cardinality::One)] },
        GroupSpec {
            members: vec![
                member(Node::Segment(1), Cardinality::OneOrMore),
                member(Node::Segment(2), Cardinality::Optional),
            ],
        },
    ];
    let lines = vec![chars("DTM+1"), chars("DTM+2"), chars("LOC+9")];
    let (g, p) = parse_sg(&sch, 1, &lines, 0).unwrap();
    assert_eq!(p, 2);
    assert_eq!(g.members[0].len(), 2);
    assert_eq!(g.members[1].len(), 0);
    assert!(simple_text(&segment_of(&g.members[0][1]).fields[0][0], "2"));
}

#[test]
fn one_or_more_without_match_fails() {
    let mut sch = schema();
    sch.groups[1].members[1].cardinality = Cardinality::OneOrMore;
    let lines = vec![chars("LOC+9"), chars("NAD+x")];
    let r = parse_sg(&sch, 1, &lines, 0);
    assert_eq!(
        r.err(),
        Some(ParseError::EmptyRequiredRepetition { line: 1, group: 1, member: 1 })
    );
}

#[test]
fn zero_or_more_without_match_is_empty() {
    let sch = schema();
    let lines = vec![chars("LOC+9"), chars("NAD+x")];
    let (g, p) = parse_sg(&sch, 1, &lines, 0).unwrap();
    assert_eq!(p, 1);
    assert_eq!(g.members[1].len(), 0);
}

#[test]
fn message_round_trip() {
    let sch = schema();
    let input = chars("UNH+1'\nLOC+9+a'\nDTM+20'\nDTM+21'\nLOC+12:x'\nDTM+22'");
    let m = parse_msg(&sch, &input).unwrap();
    assert_eq!(m.members[0].len(), 1);
    assert_eq!(m.members[1].len(), 2);
    // the last DTM belongs to the second LOC group, which takes every DTM after it
    assert_eq!(m.members[2].len(), 0);
    let first = group_of(&m.members[1][0]);
    assert_eq!(first.members[1].len(), 2);
    let second = group_of(&m.members[1][1]);
    assert_eq!(second.members[1].len(), 1);
    let out = display_edifact(&sch, &m);
    assert_eq!(text(&out), "UNH+1'\nLOC+9+a'\nDTM+20'\nDTM+21'\nLOC+12:x'\nDTM+22'");
    let again = parse_msg(&sch, &out).unwrap();
    assert_eq!(text(&display_edifact(&sch, &again)), text(&out));
}

#[test]
fn message_lines_of_group() {
    let sch = schema();
    let m = parse_msg(&sch, &chars("UNH+1'LOC+9'")).unwrap();
    let lines = display_edifact_sg(&sch, 0, &m);
    assert_eq!(lines.len(), 2);
    assert_eq!(text(&lines[0]), "UNH+1");
    assert_eq!(text(&lines[1]), "LOC+9");
}

#[test]
fn message_trailing_line_rejected() {
    let sch = schema();
    let r = parse_msg(&sch, &chars("UNH+1'LOC+9'DTM+1'NAD+x'"));
    assert_eq!(r.err(), Some(ParseError::UnexpectedSegmentTag { line: 3, expected: None, found: chars("NAD") }));
}

#[test]
fn message_missing_group_fails() {
    let sch = schema();
    let r = parse_msg(&sch, &chars("UNH+1'DTM+1'"));
    assert_eq!(
        r.err(),
        Some(ParseError::EmptyRequiredRepetition { line: 1, group: 0, member: 1 })
    );
}

#[test]
fn lines_split_on_terminator() {
    let lines = split_lines(&chars("A+1'\r\nB+2'\nC'"), '\'');
    assert_eq!(lines.len(), 3);
    assert_eq!(text(&lines[0]), "A+1");
    assert_eq!(text(&lines[1]), "B+2");
    assert_eq!(text(&lines[2]), "C");
    assert_eq!(split_lines(&chars(""), '\'').len(), 0);
}

fn txt(s: &str) -> Element {
    Element::Simple(Component::Text(chars(s)))
}

fn seg(fields: Vec<Vec<Element>>) -> NodeValue {
    NodeValue::Segment(SegmentValue { fields })
}

/// Groups: 0 message [UNH one, group 1 zero-or-more, NAD optional];
/// 1 [LOC one, DTM zero-or-more]. No tag is expected in two places.
fn clear_schema() -> Schema {
    let mut sch = schema();
    sch.groups = vec![
        GroupSpec {
            members: vec![
                member(Node::Segment(3), Cardinality::One),
                member(Node::Group(1), Cardinality::ZeroOrMore),
                member(Node::Segment(2), Cardinality::Optional),
            ],
        },
        GroupSpec {
            members: vec![
                member(Node::Segment(0), Cardinality::One),
                member(Node::Segment(1), Cardinality::ZeroOrMore),
            ],
        },
    ];
    sch
}

fn loc(code: usize, text: Option<&str>, extra: Option<&str>) -> NodeValue {
    let second = match text {
        Some(t) => Component::Text(chars(t)),
        None => Component::Absent,
    };
    let opt = match extra {
        Some(e) => vec![txt(e)],
        None => vec![],
    };
    seg(vec![vec![Element::Composite(vec![Component::Code(code), second])], opt])
}

fn sample_message() -> GroupValue {
    GroupValue {
        members: vec![
            vec![seg(vec![vec![txt("REF1")]])],
            vec![
                NodeValue::Group(GroupValue {
                    members: vec![
                        vec![loc(1, None, Some("extra"))],
                        vec![seg(vec![vec![txt("20")]]), seg(vec![vec![txt("21")]])],
                    ],
                }),
                NodeValue::Group(GroupValue {
                    members: vec![vec![loc(2, Some("x"), None)], vec![]],
                }),
            ],
            vec![seg(vec![vec![txt("N")], vec![txt("a"), txt("b")]])],
        ],
    }
}

#[test]
fn message_tree_round_trip() {
    let sch = clear_schema();
    let m = sample_message();
    let out = display_edifact(&sch, &m);
    assert_eq!(
        text(&out),
        "UNH+REF1'\nLOC+9+extra'\nDTM+20'\nDTM+21'\nLOC+12:x'\nNAD+N+a+b'"
    );
    let back = parse_msg(&sch, &out).unwrap();
    assert_eq!(back, m);
    assert_eq!(display_edifact(&sch, &back), out);
}

#[test]
fn message_without_optional_parts() {
    let sch = clear_schema();
    let m = GroupValue { members: vec![vec![seg(vec![vec![txt("R")]])], vec![], vec![]] };
    let out = display_edifact(&sch, &m);
    assert_eq!(text(&out), "UNH+R'");
    assert_eq!(parse_msg(&sch, &out).unwrap(), m);
}

#[test]
fn message_drops_suppressed_segment() {
    let sch = clear_schema();
    let empty_loc = seg(vec![
        vec![Element::Composite(vec![Component::Absent, Component::Absent])],
        vec![],
    ]);
    let m = GroupValue {
        members: vec![
            vec![seg(vec![vec![txt("R")]])],
            vec![NodeValue::Group(GroupValue {
                members: vec![vec![empty_loc], vec![seg(vec![vec![txt("5")]])]],
            })],
            vec![],
        ],
    };
    assert_eq!(text(&display_edifact(&sch, &m)), "UNH+R'\nDTM+5'");
}

#[test]
fn empty_message_renders_nothing() {
    let sch = clear_schema();
    let m = GroupValue { members: vec![vec![], vec![], vec![]] };
    assert_eq!(text(&display_edifact(&sch, &m)), "");
}

#[test]
fn segment_tree_round_trip() {
    let sch = schema();
    let v = match loc(2, Some("hello"), Some("more")) {
        NodeValue::Segment(s) => s,
        _ => unreachable!(),
    };
    let line = display_outer(&sch, 0, &v);
    assert_eq!(text(&line), "LOC+12:hello+more");
    assert_eq!(parse_outer(&sch, 0, &line, 0).unwrap(), v);
}

#[test]
fn composite_render_is_stable() {
    let sch = schema();
    let first = parse_inner(&sch, &composite_specs(), &chars(" 012 :x"), 0, 0).unwrap();
    let once = display_inner(&sch, &composite_specs(), &first);
    let second = parse_inner(&sch, &composite_specs(), &once, 0, 0).unwrap();
    assert_eq!(second, first);
    assert_eq!(display_inner(&sch, &composite_specs(), &second), once);
}

#[test]
fn group_lines_of_nested_group() {
    let sch = clear_schema();
    let m = sample_message();
    let g = group_of(&m.members[1][0]);
    let lines = display_edifact_sg(&sch, 1, g);
    assert_eq!(lines.len(), 3);
    assert_eq!(text(&lines[0]), "LOC+9+extra");
    assert_eq!(text(&lines[2]), "DTM+21");
}

#[test]
fn schema_validity() {
    assert!(schema().is_valid());
    assert!(clear_schema().is_valid());

    let mut dup = schema();
    dup.tables[0] = table(&["1", "1"], "");
    assert!(!dup.is_valid());

    let mut list_first = schema();
    list_first.segments[2].fields.swap(0, 1);
    assert!(!list_first.is_valid());

    let mut backwards = schema();
    backwards.groups[1].members[1] = member(Node::Group(0), Cardinality::Optional);
    assert!(!backwards.is_valid());

    let mut bad_tag = schema();
    bad_tag.segments[0].tag = chars("L+C");
    assert!(!bad_tag.is_valid());

    let mut bad_delims = schema();
    bad_delims.delimiters.element = ':';
    assert!(!bad_delims.is_valid());

    let mut no_table = schema();
    no_table.tables.clear();
    assert!(!no_table.is_valid());

    let mut empty_group = schema();
    empty_group.groups[1].members.clear();
    assert!(!empty_group.is_valid());
}

#[test]
fn empty_mandatory_composite_field_is_missing() {
    let mut sch = schema();
    sch.segments[0].fields[0] = field(
        ElementSpec::Composite(vec![comp(LeafKind::Text, false), comp(LeafKind::Text, false)]),
        Occurrence::Mandatory,
    );
    let r = parse_outer(&sch, 0, &chars("LOC+"), 6);
    assert_eq!(
        r.err(),
        Some(ParseError::MissingMandatoryField { line: 6, field: 0, component: 0 })
    );
    let r = parse_outer(&sch, 0, &chars("LOC++x"), 6);
    assert_eq!(
        r.err(),
        Some(ParseError::MissingMandatoryField { line: 6, field: 0, component: 0 })
    );
}

#[test]
fn empty_mandatory_code_is_missing() {
    let sch = schema();
    let r = parse_inner(&sch, &composite_specs(), &chars(":x"), 2, 1);
    assert_eq!(
        r.err(),
        Some(ParseError::MissingMandatoryField { line: 2, field: 1, component: 0 })
    );
    let coded = ElementSpec::Simple(LeafKind::Coded(0));
    let r = parse_element(&sch, &coded, &chars(""), 3, 4);
    assert_eq!(
        r.err(),
        Some(ParseError::MissingMandatoryField { line: 3, field: 4, component: 0 })
    );
}

#[test]
fn empty_mandatory_simple_text_is_kept() {
    let mut sch = schema();
    sch.segments[2].fields[1] =
        field(ElementSpec::Simple(LeafKind::Text), Occurrence::Optional);
    let v = parse_outer(&sch, 2, &chars("NAD++y"), 0).unwrap();
    assert_eq!(v.fields[0].len(), 1);
    assert!(simple_text(&v.fields[0][0], ""));
    assert!(simple_text(&v.fields[1][0], "y"));
}

#[test]
fn list_field_renders_at_its_position() {
    let mut sch = schema();
    sch.segments.push(SegmentSpec {
        tag: chars("S"),
        fields: vec![
            field(ElementSpec::Simple(LeafKind::Text), Occurrence::List),
            field(ElementSpec::Simple(LeafKind::Text), Occurrence::Optional),
        ],
    });
    assert!(!sch.is_valid());
    assert!(sch.is_renderable());
    let empty = SegmentValue { fields: vec![vec![], vec![txt("x")]] };
    assert_eq!(text(&display_outer(&sch, 4, &empty)), "S++x");
    let two = SegmentValue { fields: vec![vec![txt("p"), txt("q")], vec![txt("x")]] };
    assert_eq!(text(&display_outer(&sch, 4, &two)), "S+p+q+x");
}

#[test]
fn entries_rendering_empty_are_suppressed() {
    let mut sch = schema();
    sch.segments[2].fields[0] =
        field(ElementSpec::Simple(LeafKind::Text), Occurrence::Optional);
    let v = SegmentValue { fields: vec![vec![txt("")], vec![txt(""), txt("")]] };
    assert_eq!(text(&display_outer(&sch, 2, &v)), "");
}
