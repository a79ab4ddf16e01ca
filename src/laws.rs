//! Laws of the codec, stated over the models and proved.
use vstd::prelude::*;
use crate::element::{
    code_index, component_tokens, parse_components, parse_composite, parse_element_model,
    parse_leaf, render_composite, render_element, render_leaf, token_at,
};
use crate::error::{ErrorModel, ParseError};
use crate::group::{opens, parse_member, parse_repeat, render_node};
use crate::schema::{
    Cardinality, ComponentSpec, ElementSpec, FieldSpec, LeafKind, Node, Occurrence, Schema,
};
use crate::segment::{
    ends_in_list, entries_of, entry_tokens, field_tokens, parse_field, parse_fields, parse_list,
    parse_segment_line, render_segment, segment_tokens,
};
use crate::text::{
    all_free_of, clean, empties, free_of, join, lemma_join_free, lemma_join_head, lemma_join_len,
    lemma_split_append_free, lemma_split_join, lemma_split_nonempty, lemma_trim_free,
    lemma_trim_join, lemma_trim_join_empties, lemma_trim_parts, lemma_trim_shorter, split,
    strip_start, trim_parts,
};
use crate::message::{line_breaks, message_lines, message_text};
use crate::value::{ComponentModel, ElementModel, NodeModel, SegmentModel};

verus! {

/// A member whose node the line at the cursor does not open: when it is
/// one-or-more, parsing it fails with `EmptyRequiredRepetition` at that line; when
/// it is zero-or-more, it has no occurrence and the cursor stays.
pub proof fn lemma_empty_repetition(sch: Schema, g: int, k: int, lines: Seq<Seq<char>>, pos: int)
    requires
        0 <= g < sch.groups@.len(),
        0 <= k < sch.groups@[g].members@.len(),
        !opens(sch, sch.groups@[g].members@[k].node, lines, pos),
    ensures
        sch.groups@[g].members@[k].cardinality == Cardinality::OneOrMore ==> parse_member(
            sch,
            g,
            k,
            lines,
            pos,
        ) == Err::<(Seq<NodeModel>, int), ErrorModel>(
            ErrorModel::EmptyRequiredRepetition {
                line: pos as usize,
                group: g as usize,
                member: k as usize,
            },
        ),
        sch.groups@[g].members@[k].cardinality == Cardinality::ZeroOrMore ==> parse_member(
            sch,
            g,
            k,
            lines,
            pos,
        ) == Ok::<(Seq<NodeModel>, int), ErrorModel>((Seq::empty(), pos)),
{
}

/// A repetition meets a line that does not open its node: it stops there,
/// with no occurrence, and leaves that line to what follows.
pub proof fn lemma_repeat_stops(sch: Schema, g: int, n: Node, lines: Seq<Seq<char>>, pos: int)
    requires
        !opens(sch, n, lines, pos),
    ensures
        parse_repeat(sch, g, n, lines, pos) == Ok::<(Seq<NodeModel>, int), ErrorModel>(
            (Seq::empty(), pos),
        ),
{
}

/// Whether every entry of every field of segment `si` renders as empty text.
pub open spec fn contributes_nothing(sch: Schema, si: int, v: SegmentModel) -> bool {
    forall|f: int, j: int|
        0 <= f < sch.segments@[si].fields@.len() && 0 <= j < entries_of(v, f).len() ==> render_element(
            sch,
            sch.segments@[si].fields@[f].element,
            #[trigger] entries_of(v, f)[j],
        ).len() == 0
}

/// A segment whose fields have no entries, or only entries that render as empty
/// text, renders as no line at all.
pub proof fn lemma_suppression(sch: Schema, si: usize, v: SegmentModel)
    requires
        si < sch.segments@.len(),
        contributes_nothing(sch, si as int, v),
    ensures
        render_segment(sch, si as int, v) == Seq::<char>::empty(),
        forall|g: int| #[trigger] render_node(sch, g, Node::Segment(si), NodeModel::Segment(v))
            == Seq::<Seq<char>>::empty(),
{
    let seg = sch.segments@[si as int];
    let d = sch.delimiters.element;
    let nf = seg.fields@.len() as int;
    lemma_field_tokens_empty(sch, si as int, v, nf);
    let ft = field_tokens(sch, seg, v, nf);
    let tag = seg.tag@;
    assert(segment_tokens(sch, si as int, v) =~= seq![tag] + empties(ft.len()));
    lemma_trim_join_empties(seq![tag], ft.len(), d);
    assert(join(seq![tag], d) == tag);
    lemma_trim_shorter(tag, d);
    assert forall|g: int| #[trigger] render_node(sch, g, Node::Segment(si), NodeModel::Segment(v))
        == Seq::<Seq<char>>::empty() by {
    }
}

proof fn lemma_field_tokens_empty(sch: Schema, si: int, v: SegmentModel, n: int)
    requires
        0 <= si < sch.segments@.len(),
        0 <= n <= sch.segments@[si].fields@.len(),
        contributes_nothing(sch, si, v),
    ensures
        field_tokens(sch, sch.segments@[si], v, n) == empties(
            field_tokens(sch, sch.segments@[si], v, n).len(),
        ),
    decreases n,
{
    if n > 0 {
        let seg = sch.segments@[si];
        lemma_field_tokens_empty(sch, si, v, n - 1);
        let a = field_tokens(sch, seg, v, n - 1);
        let es = entries_of(v, n - 1);
        let b = entry_tokens(sch, seg.fields@[n - 1].element, es);
        assert(b =~= empties(b.len())) by {
            assert forall|j: int| 0 <= j < b.len() implies b[j] =~= Seq::<char>::empty() by {
                if es.len() > 0 {
                    assert(render_element(sch, seg.fields@[n - 1].element, es[j]).len() == 0);
                }
            }
        }
        assert(empties(a.len()) + empties(b.len()) =~= empties(a.len() + b.len()));
    }
}

/// Absent components at the end of a composite contribute nothing to its text:
/// it renders as its components before them do.
pub proof fn lemma_trailing_absent(
    sch: Schema,
    specs: Seq<ComponentSpec>,
    cs: Seq<ComponentModel>,
    i: int,
)
    requires
        1 <= i <= cs.len(),
        cs.len() == specs.len(),
        forall|j: int| i <= j < cs.len() ==> cs[j] == ComponentModel::Absent,
    ensures
        render_composite(sch, specs, cs) == render_composite(
            sch,
            specs.subrange(0, i),
            cs.subrange(0, i),
        ),
{
    let toks = component_tokens(sch, specs, cs);
    let head = component_tokens(sch, specs.subrange(0, i), cs.subrange(0, i));
    assert(toks =~= head + empties((cs.len() - i) as nat));
    lemma_trim_join_empties(head, (cs.len() - i) as nat, sch.delimiters.component);
}

/// A component value that the schema can carry through text and back: present
/// when mandatory, non-empty, free of delimiters, and for a code one whose
/// canonical text is its own cleaned form.
pub open spec fn component_fits(sch: Schema, c: ComponentSpec, v: ComponentModel) -> bool {
    match v {
        ComponentModel::Absent => !c.mandatory,
        ComponentModel::Text(t) => c.kind == LeafKind::Text && t.len() > 0 && sch.delimiters.plain(
            t,
        ),
        ComponentModel::Code(i) => match c.kind {
            LeafKind::Coded(ti) => {
                let codes = sch.table_codes(ti as int);
                &&& i < codes.len()
                &&& codes[i as int].len() > 0
                &&& sch.delimiters.plain(codes[i as int])
                &&& clean(codes[i as int], sch.table_padding(ti as int)) == codes[i as int]
            },
            LeafKind::Text => false,
        },
    }
}

/// A composite value with one fitting component per declared component.
pub open spec fn composite_fits(sch: Schema, specs: Seq<ComponentSpec>, cs: Seq<ComponentModel>) -> bool {
    &&& specs.len() >= 1
    &&& cs.len() == specs.len()
    &&& forall|i: int| 0 <= i < cs.len() ==> component_fits(sch, specs[i], #[trigger] cs[i])
}

/// Parsing a composite's text gives the composite back.
pub proof fn lemma_composite_round_trip(
    sch: Schema,
    specs: Seq<ComponentSpec>,
    cs: Seq<ComponentModel>,
    line: int,
    field: int,
)
    requires
        sch.wf(),
        forall|i: int| 0 <= i < specs.len() ==> sch.leaf_wf(#[trigger] specs[i].kind),
        composite_fits(sch, specs, cs),
    ensures
        parse_composite(sch, specs, render_composite(sch, specs, cs), line, field) == Ok::<
            Seq<ComponentModel>,
            ErrorModel,
        >(cs),
{
    let d = sch.delimiters.component;
    let toks = component_tokens(sch, specs, cs);
    assert(all_free_of(toks, d)) by {
        assert forall|i: int| 0 <= i < toks.len() implies free_of(#[trigger] toks[i], d) by {
            assert(component_fits(sch, specs[i], cs[i]));
            if let LeafKind::Coded(ti) = specs[i].kind {
                assert(sch.leaf_wf(specs[i].kind));
            }
        }
    }
    lemma_trim_join(toks, d);
    let tp = trim_parts(toks);
    lemma_trim_parts(toks);
    assert(all_free_of(tp, d)) by {
        assert forall|i: int| 0 <= i < tp.len() implies free_of(#[trigger] tp[i], d) by {
            assert(tp[i] == toks[i]);
        }
    }
    lemma_split_join(tp, d);
    assert(split(render_composite(sch, specs, cs), d) == tp);
    assert forall|k: int| 0 <= k <= cs.len() implies #[trigger] parse_components(
        sch,
        specs,
        tp,
        k,
        line,
        field,
    ) == Ok::<Seq<ComponentModel>, ErrorModel>(cs.subrange(0, k)) by {
        lemma_components_round_trip(sch, specs, cs, tp, k, line, field);
    }
    assert(cs.subrange(0, cs.len() as int) =~= cs);
}

proof fn lemma_components_round_trip(
    sch: Schema,
    specs: Seq<ComponentSpec>,
    cs: Seq<ComponentModel>,
    tp: Seq<Seq<char>>,
    k: int,
    line: int,
    field: int,
)
    requires
        sch.wf(),
        forall|i: int| 0 <= i < specs.len() ==> sch.leaf_wf(#[trigger] specs[i].kind),
        composite_fits(sch, specs, cs),
        tp == trim_parts(component_tokens(sch, specs, cs)),
        1 <= tp.len() <= cs.len(),
        tp == component_tokens(sch, specs, cs).subrange(0, tp.len() as int),
        forall|i: int|
            tp.len() <= i < cs.len() ==> (#[trigger] component_tokens(sch, specs, cs)[i]).len() == 0,
        0 <= k <= cs.len(),
    ensures
        parse_components(sch, specs, tp, k, line, field) == Ok::<Seq<ComponentModel>, ErrorModel>(
            cs.subrange(0, k),
        ),
    decreases k,
{
    if k > 0 {
        lemma_components_round_trip(sch, specs, cs, tp, k - 1, line, field);
        let i = k - 1;
        let c = specs[i];
        let v = cs[i];
        assert(component_fits(sch, c, v));
        let tok = component_tokens(sch, specs, cs)[i];
        assert(tok == render_leaf(sch, c.kind, v));
        assert(parse_leaf(sch, c, token_at(tp, i), line, field, i) == Ok::<ComponentModel, ErrorModel>(
            v,
        )) by {
            if i < tp.len() {
                assert(token_at(tp, i) == Some(tok));
                if let ComponentModel::Code(ci) = v {
                    if let LeafKind::Coded(ti) = c.kind {
                        let codes = sch.table_codes(ti as int);
                        assert(sch.table_wf(ti as int));
                        assert(exists|j: int| 0 <= j < codes.len() && codes[j] == tok);
                        let w = choose|j: int| 0 <= j < codes.len() && codes[j] == tok;
                        assert(codes[w] == codes[ci as int]);
                        assert(code_index(codes, tok) == Some(ci));
                    }
                }
            } else {
                assert(token_at(tp, i) is None);
            }
        }
        assert(cs.subrange(0, k - 1).push(v) =~= cs.subrange(0, k));
    } else {
        assert(cs.subrange(0, 0) =~= Seq::<ComponentModel>::empty());
    }
}

/// Rendering a composite parsed from a composite's text gives that text again.
pub proof fn lemma_composite_idempotent(
    sch: Schema,
    specs: Seq<ComponentSpec>,
    cs: Seq<ComponentModel>,
    line: int,
    field: int,
)
    requires
        sch.wf(),
        forall|i: int| 0 <= i < specs.len() ==> sch.leaf_wf(#[trigger] specs[i].kind),
        composite_fits(sch, specs, cs),
    ensures
        parse_composite(sch, specs, render_composite(sch, specs, cs), line, field) is Ok,
        render_composite(
            sch,
            specs,
            parse_composite(sch, specs, render_composite(sch, specs, cs), line, field)->Ok_0,
        ) == render_composite(sch, specs, cs),
{
    lemma_composite_round_trip(sch, specs, cs, line, field);
}


/// An entry that the schema can carry through text and back: a fitting present
/// component, or a fitting composite with at least one component present.
pub open spec fn element_fits(sch: Schema, e: ElementSpec, v: ElementModel) -> bool {
    match e {
        ElementSpec::Simple(kind) => match v {
            ElementModel::Simple(c) => component_fits(
                sch,
                ComponentSpec { kind, mandatory: true },
                c,
            ),
            _ => false,
        },
        ElementSpec::Composite(specs) => match v {
            ElementModel::Composite(cs) => composite_fits(sch, specs@, cs) && exists|i: int|
                0 <= i < cs.len() && cs[i] != ComponentModel::Absent,
            _ => false,
        },
    }
}

proof fn lemma_leaf_plain(sch: Schema, c: ComponentSpec, v: ComponentModel)
    requires
        component_fits(sch, c, v),
    ensures
        sch.delimiters.plain(render_leaf(sch, c.kind, v)),
        v != ComponentModel::Absent ==> render_leaf(sch, c.kind, v).len() > 0,
{
}

/// A fitting entry renders as a non-empty token free of the element delimiter
/// and of the terminator (`x` is either).
pub proof fn lemma_element_token(sch: Schema, e: ElementSpec, v: ElementModel, x: char)
    requires
        sch.wf(),
        sch.element_wf(e),
        element_fits(sch, e, v),
        x == sch.delimiters.element || x == sch.delimiters.terminator,
    ensures
        render_element(sch, e, v).len() > 0,
        free_of(render_element(sch, e, v), x),
{
    match e {
        ElementSpec::Simple(kind) => {
            if let ElementModel::Simple(c) = v {
                lemma_leaf_plain(sch, ComponentSpec { kind, mandatory: true }, c);
            }
        },
        ElementSpec::Composite(specs) => {
            if let ElementModel::Composite(cs) = v {
                let d = sch.delimiters.component;
                let toks = component_tokens(sch, specs@, cs);
                assert forall|i: int| 0 <= i < toks.len() implies free_of(#[trigger] toks[i], x)
                    && free_of(toks[i], d) by {
                    lemma_leaf_plain(sch, specs@[i], cs[i]);
                }
                assert(all_free_of(toks, x));
                assert(all_free_of(toks, d));
                lemma_join_free(toks, d, x);
                lemma_trim_free(join(toks, d), d, x);
                let w = choose|i: int| 0 <= i < cs.len() && cs[i] != ComponentModel::Absent;
                lemma_leaf_plain(sch, specs@[w], cs[w]);
                lemma_trim_join(toks, d);
                lemma_trim_parts(toks);
                let tp = trim_parts(toks);
                assert(toks[w] == render_leaf(sch, specs@[w].kind, cs[w]));
                assert(toks[w].len() > 0);
                assert(w < tp.len());
                assert(tp[w] == toks[w]);
                lemma_join_len(tp, d, w);
            }
        },
    }
}

/// Parsing a fitting entry's token gives the entry back.
pub proof fn lemma_element_round_trip(
    sch: Schema,
    e: ElementSpec,
    v: ElementModel,
    line: int,
    field: int,
)
    requires
        sch.wf(),
        sch.element_wf(e),
        element_fits(sch, e, v),
    ensures
        parse_element_model(sch, e, render_element(sch, e, v), line, field) == Ok::<
            ElementModel,
            ErrorModel,
        >(v),
{
    match e {
        ElementSpec::Simple(kind) => {
            if let ElementModel::Simple(c) = v {
                if let ComponentModel::Code(ci) = c {
                    if let LeafKind::Coded(ti) = kind {
                        let codes = sch.table_codes(ti as int);
                        let tok = codes[ci as int];
                        assert(sch.table_wf(ti as int));
                        assert(exists|j: int| 0 <= j < codes.len() && codes[j] == tok);
                        let w = choose|j: int| 0 <= j < codes.len() && codes[j] == tok;
                        assert(codes[w] == codes[ci as int]);
                        assert(code_index(codes, tok) == Some(ci));
                    }
                }
            }
        },
        ElementSpec::Composite(specs) => {
            if let ElementModel::Composite(cs) = v {
                lemma_composite_round_trip(sch, specs@, cs, line, field);
            }
        },
    }
}


/// A field's entries that the schema can carry through text and back: as many as
/// its occurrence allows, each fitting.
pub open spec fn field_fits(sch: Schema, f: FieldSpec, es: Seq<ElementModel>) -> bool {
    &&& match f.occurrence {
        Occurrence::Mandatory => es.len() == 1,
        Occurrence::Optional => es.len() <= 1,
        Occurrence::List => true,
    }
    &&& forall|j: int| 0 <= j < es.len() ==> element_fits(sch, f.element, #[trigger] es[j])
}

/// A segment value with one fitting entry list per field of segment `si`.
pub open spec fn segment_fits(sch: Schema, si: int, v: SegmentModel) -> bool {
    let seg = sch.segments@[si];
    &&& v.fields.len() == seg.fields@.len()
    &&& forall|f: int| 0 <= f < seg.fields@.len() ==> field_fits(sch, seg.fields@[f], #[trigger] v.fields[f])
}

/// The number of fields of segment `si` that take one element each.
pub open spec fn single_fields(sch: Schema, si: int) -> int {
    let seg = sch.segments@[si];
    if ends_in_list(seg) {
        seg.fields@.len() - 1
    } else {
        seg.fields@.len() as int
    }
}

proof fn lemma_entry_tokens(sch: Schema, si: int, v: SegmentModel, f: int, x: char)
    requires
        sch.wf(),
        0 <= si < sch.segments@.len(),
        segment_fits(sch, si, v),
        0 <= f < sch.segments@[si].fields@.len(),
        x == sch.delimiters.element || x == sch.delimiters.terminator,
    ensures
        all_free_of(
            entry_tokens(sch, sch.segments@[si].fields@[f].element, entries_of(v, f)),
            x,
        ),
        forall|j: int|
            0 <= j < entries_of(v, f).len() ==> (#[trigger] entry_tokens(
                sch,
                sch.segments@[si].fields@[f].element,
                entries_of(v, f),
            )[j]).len() > 0,
{
    let seg = sch.segments@[si];
    assert(sch.segment_wf(si));
    let e = seg.fields@[f].element;
    let es = entries_of(v, f);
    assert(field_fits(sch, seg.fields@[f], v.fields[f]));
    let et = entry_tokens(sch, e, es);
    assert forall|j: int| 0 <= j < et.len() implies free_of(#[trigger] et[j], x) && (j < es.len()
        ==> et[j].len() > 0) by {
        if es.len() > 0 {
            assert(element_fits(sch, e, es[j]));
            lemma_element_token(sch, e, es[j], x);
        }
    }
}

proof fn lemma_field_tokens_free(sch: Schema, si: int, v: SegmentModel, n: int, x: char)
    requires
        sch.wf(),
        0 <= si < sch.segments@.len(),
        segment_fits(sch, si, v),
        0 <= n <= sch.segments@[si].fields@.len(),
        x == sch.delimiters.element || x == sch.delimiters.terminator,
    ensures
        all_free_of(field_tokens(sch, sch.segments@[si], v, n), x),
    decreases n,
{
    if n > 0 {
        let seg = sch.segments@[si];
        lemma_field_tokens_free(sch, si, v, n - 1, x);
        lemma_entry_tokens(sch, si, v, n - 1, x);
        let a = field_tokens(sch, seg, v, n - 1);
        let b = entry_tokens(sch, seg.fields@[n - 1].element, entries_of(v, n - 1));
        assert forall|i: int| 0 <= i < (a + b).len() implies free_of(#[trigger] (a + b)[i], x) by {
            if i < a.len() {
                assert((a + b)[i] == a[i]);
            } else {
                assert((a + b)[i] == b[i - a.len()]);
            }
        }
    }
}

proof fn lemma_field_tokens_single(sch: Schema, si: int, v: SegmentModel, n: int)
    requires
        sch.wf(),
        0 <= si < sch.segments@.len(),
        segment_fits(sch, si, v),
        0 <= n <= single_fields(sch, si),
    ensures
        field_tokens(sch, sch.segments@[si], v, n).len() == n,
        forall|f: int|
            0 <= f < n ==> #[trigger] field_tokens(sch, sch.segments@[si], v, n)[f] == entry_tokens(
                sch,
                sch.segments@[si].fields@[f].element,
                entries_of(v, f),
            )[0],
    decreases n,
{
    if n > 0 {
        let seg = sch.segments@[si];
        assert(sch.segment_wf(si));
        lemma_field_tokens_single(sch, si, v, n - 1);
        let f = n - 1;
        assert(seg.fields@[f].occurrence != Occurrence::List);
        assert(field_fits(sch, seg.fields@[f], v.fields[f]));
        let b = entry_tokens(sch, seg.fields@[f].element, entries_of(v, f));
        assert(b.len() == 1);
        let a = field_tokens(sch, seg, v, n - 1);
        assert forall|g: int| 0 <= g < n implies #[trigger] field_tokens(sch, seg, v, n)[g]
            == entry_tokens(sch, seg.fields@[g].element, entries_of(v, g))[0] by {
            if g < n - 1 {
                assert((a + b)[g] == a[g]);
            } else {
                assert((a + b)[g] == b[0]);
            }
        }
    }
}


/// The element tokens that parsing a rendered segment line sees.
spec fn line_tokens(sch: Schema, si: int, v: SegmentModel) -> Seq<Seq<char>> {
    trim_parts(segment_tokens(sch, si, v)).drop_first()
}

proof fn lemma_single_fields_parse(sch: Schema, si: int, v: SegmentModel, k: int, pos: int)
    requires
        sch.wf(),
        0 <= si < sch.segments@.len(),
        segment_fits(sch, si, v),
        0 <= k <= single_fields(sch, si),
    ensures
        parse_fields(sch, sch.segments@[si], line_tokens(sch, si, v), k, pos) == Ok::<
            Seq<Seq<ElementModel>>,
            ErrorModel,
        >(v.fields.subrange(0, k)),
    decreases k,
{
    let seg = sch.segments@[si];
    if k == 0 {
        assert(v.fields.subrange(0, 0) =~= Seq::<Seq<ElementModel>>::empty());
    } else {
        lemma_single_fields_parse(sch, si, v, k - 1, pos);
        let f = k - 1;
        let nf = seg.fields@.len() as int;
        assert(sch.segment_wf(si));
        let fs = seg.fields@[f];
        assert(fs.occurrence != Occurrence::List);
        let es = v.fields[f];
        assert(field_fits(sch, fs, es));
        assert(entries_of(v, f) == es);
        let toks = segment_tokens(sch, si, v);
        let ft = field_tokens(sch, seg, v, nf);
        let k0 = single_fields(sch, si);
        lemma_field_tokens_single(sch, si, v, k0);
        lemma_entry_tokens(sch, si, v, f, sch.delimiters.element);
        let et = entry_tokens(sch, fs.element, es);
        if ends_in_list(seg) {
            assert(ft == field_tokens(sch, seg, v, k0) + entry_tokens(
                sch,
                seg.fields@[k0].element,
                entries_of(v, k0),
            ));
        }
        assert(ft[f] == et[0]);
        assert(toks[f + 1] == et[0]);
        lemma_trim_parts(toks);
        let tp = trim_parts(toks);
        let lt = line_tokens(sch, si, v);
        assert(parse_field(sch, fs, token_at(lt, f), pos, f) == Ok::<Seq<ElementModel>, ErrorModel>(
            es,
        )) by {
            if f < lt.len() {
                assert(lt[f] == tp[f + 1]);
                assert(tp[f + 1] == toks[f + 1]);
                if es.len() == 1 {
                    assert(element_fits(sch, fs.element, es[0]));
                    assert(sch.element_wf(fs.element));
                    lemma_element_round_trip(sch, fs.element, es[0], pos, f);
                    assert(et[0].len() > 0);
                    assert(es =~= seq![es[0]]);
                } else {
                    assert(es =~= Seq::<ElementModel>::empty());
                }
            } else {
                assert(toks[f + 1].len() == 0);
                if es.len() == 1 {
                    assert(et[0].len() > 0);
                }
                assert(es =~= Seq::<ElementModel>::empty());
            }
        }
        assert(v.fields.subrange(0, k - 1).push(es) =~= v.fields.subrange(0, k));
    }
}

#[verifier::rlimit(40)]
proof fn lemma_list_parse(sch: Schema, si: int, v: SegmentModel, j: int, pos: int)
    requires
        sch.wf(),
        0 <= si < sch.segments@.len(),
        segment_fits(sch, si, v),
        ends_in_list(sch.segments@[si]),
        entries_of(v, single_fields(sch, si)).len() > 0,
        0 <= j <= entries_of(v, single_fields(sch, si)).len(),
    ensures
        parse_list(
            sch,
            sch.segments@[si].fields@[single_fields(sch, si)].element,
            line_tokens(sch, si, v),
            single_fields(sch, si),
            single_fields(sch, si) + j,
            pos,
        ) == Ok::<Seq<ElementModel>, ErrorModel>(
            entries_of(v, single_fields(sch, si)).subrange(0, j),
        ),
    decreases j,
{
    let k0 = single_fields(sch, si);
    let es = entries_of(v, k0);
    if j == 0 {
        assert(es.subrange(0, 0) =~= Seq::<ElementModel>::empty());
    } else {
        lemma_list_parse(sch, si, v, j - 1, pos);
        let seg = sch.segments@[si];
        let e = seg.fields@[k0].element;
        let toks = segment_tokens(sch, si, v);
        let et = entry_tokens(sch, e, es);
        lemma_field_tokens_single(sch, si, v, k0);
        lemma_entry_tokens(sch, si, v, k0, sch.delimiters.element);
        let nf = seg.fields@.len() as int;
        assert(field_tokens(sch, seg, v, nf) == field_tokens(sch, seg, v, k0) + et);
        assert(toks.last() == et[es.len() - 1]);
        assert(toks.len() > 1);
        assert(trim_parts(toks) == toks);
        let lt = line_tokens(sch, si, v);
        assert(lt == field_tokens(sch, seg, v, nf));
        assert(lt[k0 + j - 1] == et[j - 1]);
        assert(et[j - 1] == render_element(sch, e, es[j - 1]));
        assert(et[j - 1].len() > 0);
        assert(sch.segment_wf(si));
        assert(field_fits(sch, seg.fields@[k0], v.fields[k0]));
        assert(element_fits(sch, e, es[j - 1]));
        lemma_element_round_trip(sch, e, es[j - 1], pos, k0 + j - 1);
        assert(es.subrange(0, j - 1).push(es[j - 1]) =~= es.subrange(0, j));
    }
}

/// Parsing the line of a fitting segment, when it is not suppressed, gives the
/// segment back.
pub proof fn lemma_segment_round_trip(sch: Schema, si: int, v: SegmentModel, pos: int)
    requires
        sch.wf(),
        0 <= si < sch.segments@.len(),
        segment_fits(sch, si, v),
        render_segment(sch, si, v).len() > 0,
    ensures
        parse_segment_line(sch, si, render_segment(sch, si, v), pos) == Ok::<
            SegmentModel,
            ErrorModel,
        >(v),
{
    let seg = sch.segments@[si];
    let d = sch.delimiters.element;
    let nf = seg.fields@.len() as int;
    assert(sch.segment_wf(si));
    let toks = segment_tokens(sch, si, v);
    let ft = field_tokens(sch, seg, v, nf);
    lemma_field_tokens_free(sch, si, v, nf, d);
    assert(all_free_of(toks, d)) by {
        assert forall|i: int| 0 <= i < toks.len() implies free_of(#[trigger] toks[i], d) by {
            if i > 0 {
                assert(toks[i] == ft[i - 1]);
            }
        }
    }
    lemma_trim_join(toks, d);
    lemma_trim_parts(toks);
    let tp = trim_parts(toks);
    assert(all_free_of(tp, d)) by {
        assert forall|i: int| 0 <= i < tp.len() implies free_of(#[trigger] tp[i], d) by {
            assert(tp[i] == toks[i]);
        }
    }
    lemma_split_join(tp, d);
    let line = render_segment(sch, si, v);
    assert(split(line, d) == tp);
    assert(tp[0] == seg.tag@);
    let lt = line_tokens(sch, si, v);
    assert(split(line, d).drop_first() == lt);
    let k0 = single_fields(sch, si);
    lemma_field_tokens_single(sch, si, v, k0);
    lemma_single_fields_parse(sch, si, v, k0, pos);
    if ends_in_list(seg) {
        let es = entries_of(v, k0);
        assert(es == v.fields[k0]);
        let e = seg.fields@[k0].element;
        let et = entry_tokens(sch, e, es);
        assert(ft == field_tokens(sch, seg, v, k0) + et);
        if es.len() == 0 {
            assert(toks.last().len() == 0);
            assert(tp == trim_parts(toks.drop_last()));
            lemma_trim_parts(toks.drop_last());
            assert(lt.len() <= k0);
            assert(es =~= Seq::<ElementModel>::empty());
        } else {
            lemma_list_parse(sch, si, v, es.len() as int, pos);
            lemma_entry_tokens(sch, si, v, k0, sch.delimiters.element);
            assert(toks.last() == et[es.len() - 1]);
            assert(tp == toks);
            assert(lt.len() == k0 + es.len());
            assert(es.subrange(0, es.len() as int) =~= es);
        }
        assert(v.fields.subrange(0, k0).push(v.fields[k0]) =~= v.fields.subrange(0, nf));
        assert(parse_list(sch, e, lt, k0, lt.len() as int, pos) == Ok::<Seq<ElementModel>, ErrorModel>(
            v.fields[k0],
        ));
        assert(k0 + 1 == nf);
        assert(parse_fields(sch, seg, lt, nf, pos) == Ok::<Seq<Seq<ElementModel>>, ErrorModel>(
            v.fields.subrange(0, nf),
        ));
    } else {
        assert(lt.len() <= nf);
    }
    assert(v.fields.subrange(0, nf) =~= v.fields);
    assert(parse_fields(sch, seg, lt, nf, pos) == Ok::<Seq<Seq<ElementModel>>, ErrorModel>(v.fields));
    assert(split(line, d)[0] == seg.tag@);
}

/// Rendering the segment parsed from a fitting segment's line gives that line again.
pub proof fn lemma_segment_idempotent(sch: Schema, si: int, v: SegmentModel, pos: int)
    requires
        sch.wf(),
        0 <= si < sch.segments@.len(),
        segment_fits(sch, si, v),
        render_segment(sch, si, v).len() > 0,
    ensures
        parse_segment_line(sch, si, render_segment(sch, si, v), pos) is Ok,
        render_segment(
            sch,
            si,
            parse_segment_line(sch, si, render_segment(sch, si, v), pos)->Ok_0,
        ) == render_segment(sch, si, v),
{
    lemma_segment_round_trip(sch, si, v, pos);
}


/// The pieces between terminators in the text of `lines`.
spec fn written_pieces(lines: Seq<Seq<char>>) -> Seq<Seq<char>> {
    Seq::new(
        lines.len(),
        |i: int|
            if i == 0 {
                lines[0]
            } else {
                seq!['\n'] + lines[i]
            },
    ).push(Seq::empty())
}

proof fn lemma_written_pieces(lines: Seq<Seq<char>>, t: char)
    requires
        lines.len() >= 1,
        t != '\n',
        forall|i: int| 0 <= i < lines.len() ==> free_of(#[trigger] lines[i], t),
    ensures
        split(message_text(lines, t), t) == written_pieces(lines),
    decreases lines.len(),
{
    let ended = lines.map_values(|l: Seq<char>| l.push(t));
    assert(free_of(lines.last(), t)) by {
        assert(lines[lines.len() - 1] == lines.last());
    }
    if lines.len() == 1 {
        assert(ended =~= seq![lines[0].push(t)]);
        assert(message_text(lines, t) == lines[0].push(t));
        lemma_split_append_free(Seq::empty(), lines[0], t);
        assert(Seq::<char>::empty() + lines[0] =~= lines[0]);
        assert(split(lines[0], t) =~= seq![lines[0]]);
        assert(lines[0].push(t).drop_last() =~= lines[0]);
        assert(split(lines[0].push(t), t) =~= written_pieces(lines));
    } else {
        let init = lines.drop_last();
        assert forall|i: int| 0 <= i < init.len() implies free_of(#[trigger] init[i], t) by {
            assert(init[i] == lines[i]);
        }
        lemma_written_pieces(init, t);
        let x = message_text(init, t);
        assert(ended.drop_last() =~= init.map_values(|l: Seq<char>| l.push(t)));
        assert(message_text(lines, t) =~= x + seq!['\n'] + lines.last().push(t));
        let y = seq!['\n'] + lines.last();
        assert(free_of(y, t)) by {
            assert forall|i: int| 0 <= i < y.len() implies y[i] != t by {
                if i > 0 {
                    assert(y[i] == lines.last()[i - 1]);
                }
            }
        }
        lemma_split_append_free(x, y, t);
        assert(x + seq!['\n'] + lines.last().push(t) =~= (x + y).push(t));
        assert((x + y).push(t).drop_last() =~= x + y);
        lemma_split_nonempty(x + y, t);
        let wi = written_pieces(init);
        assert(Seq::<char>::empty() + y =~= y);
        assert(wi.update(wi.len() - 1, Seq::<char>::empty() + y).push(Seq::empty())
            =~= written_pieces(lines));
    }
}

/// Splitting the text of written lines gives the lines back, when no line holds
/// the terminator or starts with a line break.
pub proof fn lemma_lines_round_trip(lines: Seq<Seq<char>>, t: char)
    requires
        t != '\n',
        t != '\r',
        forall|i: int| 0 <= i < lines.len() ==> free_of(#[trigger] lines[i], t),
        forall|i: int|
            0 <= i < lines.len() ==> strip_start(#[trigger] lines[i], line_breaks()) == lines[i],
    ensures
        message_lines(message_text(lines, t), t) == lines,
{
    if lines.len() == 0 {
        assert(message_text(lines, t) == Seq::<char>::empty());
        assert(split(Seq::<char>::empty(), t) == seq![Seq::<char>::empty()]);
        let pieces = split(Seq::<char>::empty(), t).map_values(
            |p: Seq<char>| strip_start(p, line_breaks()),
        );
        assert(pieces.last() == strip_start(Seq::<char>::empty(), line_breaks()));
        assert(pieces.drop_last() =~= lines);
    } else {
        lemma_written_pieces(lines, t);
        let w = written_pieces(lines);
        let pieces = w.map_values(|p: Seq<char>| strip_start(p, line_breaks()));
        assert forall|i: int| 0 <= i < lines.len() implies #[trigger] pieces[i] == lines[i] by {
            if i > 0 {
                let y = seq!['\n'] + lines[i];
                assert(line_breaks().contains('\n')) by {
                    assert(line_breaks()[0] == '\n');
                }
                assert(y.drop_first() =~= lines[i]);
            }
        }
        assert(pieces.last() == strip_start(Seq::<char>::empty(), line_breaks()));
        assert(pieces.drop_last() =~= lines);
    }
}


/// Whether no segment tag starts with a line break.
pub open spec fn tags_unbroken(sch: Schema) -> bool {
    forall|s: int|
        0 <= s < sch.segments@.len() ==> !line_breaks().contains(
            (#[trigger] sch.segments@[s]).tag@[0],
        )
}

/// The line of a fitting segment holds no terminator and starts with its tag.
pub proof fn lemma_segment_line_shape(sch: Schema, si: int, v: SegmentModel)
    requires
        sch.wf(),
        tags_unbroken(sch),
        0 <= si < sch.segments@.len(),
        segment_fits(sch, si, v),
        render_segment(sch, si, v).len() > 0,
    ensures
        free_of(render_segment(sch, si, v), sch.delimiters.terminator),
        strip_start(render_segment(sch, si, v), line_breaks()) == render_segment(sch, si, v),
{
    let seg = sch.segments@[si];
    let d = sch.delimiters.element;
    let t = sch.delimiters.terminator;
    let nf = seg.fields@.len() as int;
    assert(sch.segment_wf(si));
    let toks = segment_tokens(sch, si, v);
    let ft = field_tokens(sch, seg, v, nf);
    lemma_field_tokens_free(sch, si, v, nf, t);
    lemma_field_tokens_free(sch, si, v, nf, d);
    assert(all_free_of(toks, t) && all_free_of(toks, d)) by {
        assert forall|i: int| 0 <= i < toks.len() implies free_of(#[trigger] toks[i], t) && free_of(
            toks[i],
            d,
        ) by {
            if i > 0 {
                assert(toks[i] == ft[i - 1]);
            }
        }
    }
    lemma_join_free(toks, d, t);
    lemma_trim_free(join(toks, d), d, t);
    lemma_trim_join(toks, d);
    lemma_trim_parts(toks);
    let tp = trim_parts(toks);
    assert(tp[0] == seg.tag@);
    lemma_join_head(tp, d, 0);
    let line = render_segment(sch, si, v);
    assert(line[0] == seg.tag@[0]);
}

} // verus!
