//! Components and composite elements: one element token to a value and back.
use vstd::prelude::*;
use crate::error::{ErrorModel, ParseError};
use crate::schema::{ComponentSpec, ElementSpec, LeafKind, Schema};
use crate::text::{
    clean, clean_token, join, join_with, push_all, same_chars, split, split_on, trim_trailing,
    trim_trailing_in_place, views,
};
use crate::value::{Component, ComponentModel, Element, ElementModel, components_view};

verus! {

/// The index of `key` among `codes`, if it is there.
pub open spec fn code_index(codes: Seq<Seq<char>>, key: Seq<char>) -> Option<nat> {
    if exists|i: int| 0 <= i < codes.len() && codes[i] == key {
        Some((choose|i: int| 0 <= i < codes.len() && codes[i] == key) as nat)
    } else {
        None
    }
}

/// The token at position `i`, if there is one.
pub open spec fn token_at(tokens: Seq<Seq<char>>, i: int) -> Option<Seq<char>> {
    if 0 <= i < tokens.len() {
        Some(tokens[i])
    } else {
        None
    }
}

/// A present token converted to a leaf of kind `kind`.
pub open spec fn convert_leaf(
    sch: Schema,
    kind: LeafKind,
    t: Seq<char>,
    line: int,
    field: int,
    comp: int,
) -> Result<ComponentModel, ErrorModel> {
    match kind {
        LeafKind::Text => Ok(ComponentModel::Text(t)),
        LeafKind::Coded(ti) => match code_index(
            sch.table_codes(ti as int),
            clean(t, sch.table_padding(ti as int)),
        ) {
            Some(i) => Ok(ComponentModel::Code(i)),
            None => Err(
                ErrorModel::LeafTypeConversionError {
                    line: line as usize,
                    field: field as usize,
                    component: comp as usize,
                    table: ti,
                    raw_token: t,
                },
            ),
        },
    }
}

/// A component from a present token: an empty token is absent when the component
/// is optional, empty text when it is mandatory free text, and missing when it is
/// a mandatory code; any other token is converted.
pub open spec fn parse_present_leaf(
    sch: Schema,
    c: ComponentSpec,
    t: Seq<char>,
    line: int,
    field: int,
    comp: int,
) -> Result<ComponentModel, ErrorModel> {
    if t.len() == 0 {
        if !c.mandatory {
            Ok(ComponentModel::Absent)
        } else {
            match c.kind {
                LeafKind::Text => Ok(ComponentModel::Text(Seq::empty())),
                LeafKind::Coded(_) => Err(
                    ErrorModel::MissingMandatoryField {
                        line: line as usize,
                        field: field as usize,
                        component: comp as usize,
                    },
                ),
            }
        }
    } else {
        convert_leaf(sch, c.kind, t, line, field, comp)
    }
}

/// A component from its token: a missing token is absent (an error when the
/// component is mandatory); a present one is read by `parse_present_leaf`.
pub open spec fn parse_leaf(
    sch: Schema,
    c: ComponentSpec,
    tok: Option<Seq<char>>,
    line: int,
    field: int,
    comp: int,
) -> Result<ComponentModel, ErrorModel> {
    match tok {
        None => if c.mandatory {
            Err(
                ErrorModel::MissingMandatoryField {
                    line: line as usize,
                    field: field as usize,
                    component: comp as usize,
                },
            )
        } else {
            Ok(ComponentModel::Absent)
        },
        Some(t) => parse_present_leaf(sch, c, t, line, field, comp),
    }
}

/// The first `n` components of a composite, from its sub-tokens.
pub open spec fn parse_components(
    sch: Schema,
    specs: Seq<ComponentSpec>,
    toks: Seq<Seq<char>>,
    n: int,
    line: int,
    field: int,
) -> Result<Seq<ComponentModel>, ErrorModel>
    decreases n,
{
    if n <= 0 {
        Ok(Seq::empty())
    } else {
        match parse_components(sch, specs, toks, n - 1, line, field) {
            Err(e) => Err(e),
            Ok(cs) => match parse_leaf(sch, specs[n - 1], token_at(toks, n - 1), line, field, n - 1) {
                Err(e) => Err(e),
                Ok(c) => Ok(cs.push(c)),
            },
        }
    }
}

/// A composite element from its token.
pub open spec fn parse_composite(
    sch: Schema,
    specs: Seq<ComponentSpec>,
    t: Seq<char>,
    line: int,
    field: int,
) -> Result<Seq<ComponentModel>, ErrorModel> {
    let toks = split(t, sch.delimiters.component);
    if toks.len() > specs.len() {
        Err(ErrorModel::TooManyFields { line: line as usize, element: Some(field as usize), raw: t })
    } else {
        parse_components(sch, specs, toks, specs.len() as int, line, field)
    }
}

/// The text of a component: its canonical code, its text, or nothing.
pub open spec fn render_leaf(sch: Schema, kind: LeafKind, c: ComponentModel) -> Seq<char> {
    match c {
        ComponentModel::Absent => Seq::empty(),
        ComponentModel::Text(t) => t,
        ComponentModel::Code(i) => match kind {
            LeafKind::Coded(ti) => if i < sch.table_codes(ti as int).len() {
                sch.table_codes(ti as int)[i as int]
            } else {
                Seq::empty()
            },
            LeafKind::Text => Seq::empty(),
        },
    }
}

/// The tokens of the components of a composite.
pub open spec fn component_tokens(
    sch: Schema,
    specs: Seq<ComponentSpec>,
    cs: Seq<ComponentModel>,
) -> Seq<Seq<char>> {
    Seq::new(cs.len(), |i: int| render_leaf(sch, specs[i].kind, cs[i]))
}

/// A composite's text: its components joined, with the delimiters that trailing
/// absent components leave removed.
pub open spec fn render_composite(
    sch: Schema,
    specs: Seq<ComponentSpec>,
    cs: Seq<ComponentModel>,
) -> Seq<char> {
    let d = sch.delimiters.component;
    trim_trailing(join(component_tokens(sch, specs, cs), d), d)
}

/// Once a prefix of the components fails, the whole composite fails alike.
pub proof fn lemma_components_err(
    sch: Schema,
    specs: Seq<ComponentSpec>,
    toks: Seq<Seq<char>>,
    k: int,
    n: int,
    line: int,
    field: int,
)
    requires
        0 <= k <= n,
        parse_components(sch, specs, toks, k, line, field) is Err,
    ensures
        parse_components(sch, specs, toks, n, line, field) == parse_components(
            sch,
            specs,
            toks,
            k,
            line,
            field,
        ),
    decreases n - k,
{
    if k < n {
        lemma_components_err(sch, specs, toks, k, n - 1, line, field);
    }
}

/// The index of `key` in code table `t`.
fn find_code(sch: &Schema, t: usize, key: &Vec<char>) -> (r: Option<usize>)
    requires
        sch.wf(),
        t < sch.tables@.len(),
    ensures
        match r {
            Some(i) => code_index(sch.table_codes(t as int), key@) == Some(i as nat),
            None => code_index(sch.table_codes(t as int), key@) is None,
        },
{
    let codes = &sch.tables[t].codes;
    let ghost cs = sch.table_codes(t as int);
    assert(sch.table_wf(t as int));
    let mut i: usize = 0;
    while i < codes.len()
        invariant
            0 <= i <= codes@.len(),
            sch.wf(),
            t < sch.tables@.len(),
            codes == sch.tables@[t as int].codes,
            cs == codes@.map_values(|c: Vec<char>| c@),
            forall|j: int| 0 <= j < i ==> cs[j] != key@,
        decreases codes@.len() - i,
    {
        if same_chars(codes[i].as_slice(), key.as_slice()) {
            proof {
                assert(cs[i as int] == key@);
                let w = choose|j: int| 0 <= j < cs.len() && cs[j] == key@;
                assert(sch.table_wf(t as int));
                assert(cs[w] == cs[i as int]);
                assert(w == i);
            }
            return Some(i);
        }
        i = i + 1;
    }
    None
}

/// Copies a character sequence.
pub(crate) fn copy_chars(s: &[char]) -> (r: Vec<char>)
    ensures
        r@ == s@,
{
    let mut r: Vec<char> = Vec::new();
    push_all(&mut r, s);
    r
}

/// A present token converted to a leaf of kind `kind`.
pub(crate) fn convert(
    sch: &Schema,
    kind: LeafKind,
    t: &Vec<char>,
    line: usize,
    field: usize,
    comp: usize,
) -> (r: Result<Component, ParseError>)
    requires
        sch.wf(),
        sch.leaf_wf(kind),
    ensures
        match r {
            Ok(c) => convert_leaf(*sch, kind, t@, line as int, field as int, comp as int) == Ok::<
                ComponentModel,
                ErrorModel,
            >(c@),
            Err(e) => convert_leaf(*sch, kind, t@, line as int, field as int, comp as int) == Err::<
                ComponentModel,
                ErrorModel,
            >(e@),
        },
{
    match kind {
        LeafKind::Text => Ok(Component::Text(copy_chars(t.as_slice()))),
        LeafKind::Coded(ti) => {
            let key = clean_token(t.as_slice(), sch.tables[ti].padding.as_slice());
            match find_code(sch, ti, &key) {
                Some(i) => Ok(Component::Code(i)),
                None => Err(
                    ParseError::LeafTypeConversionError {
                        line,
                        field,
                        component: comp,
                        table: ti,
                        raw_token: copy_chars(t.as_slice()),
                    },
                ),
            }
        },
    }
}


/// A component from its token; see `parse_leaf`.
fn leaf(
    sch: &Schema,
    c: ComponentSpec,
    toks: &Vec<Vec<char>>,
    i: usize,
    line: usize,
    field: usize,
) -> (r: Result<Component, ParseError>)
    requires
        sch.wf(),
        sch.leaf_wf(c.kind),
    ensures
        match r {
            Ok(v) => parse_leaf(*sch, c, token_at(views(toks@), i as int), line as int, field as int, i as int)
                == Ok::<ComponentModel, ErrorModel>(v@),
            Err(e) => parse_leaf(*sch, c, token_at(views(toks@), i as int), line as int, field as int, i as int)
                == Err::<ComponentModel, ErrorModel>(e@),
        },
{
    if i >= toks.len() {
        if c.mandatory {
            Err(ParseError::MissingMandatoryField { line, field, component: i })
        } else {
            Ok(Component::Absent)
        }
    } else {
        present_leaf(sch, c, &toks[i], line, field, i)
    }
}

/// A component from a present token; see `parse_present_leaf`.
fn present_leaf(
    sch: &Schema,
    c: ComponentSpec,
    t: &Vec<char>,
    line: usize,
    field: usize,
    comp: usize,
) -> (r: Result<Component, ParseError>)
    requires
        sch.wf(),
        sch.leaf_wf(c.kind),
    ensures
        match r {
            Ok(v) => parse_present_leaf(*sch, c, t@, line as int, field as int, comp as int)
                == Ok::<ComponentModel, ErrorModel>(v@),
            Err(e) => parse_present_leaf(*sch, c, t@, line as int, field as int, comp as int)
                == Err::<ComponentModel, ErrorModel>(e@),
        },
{
    if t.len() == 0 {
        if !c.mandatory {
            Ok(Component::Absent)
        } else {
            match c.kind {
                LeafKind::Text => Ok(Component::Text(Vec::new())),
                LeafKind::Coded(_) => Err(
                    ParseError::MissingMandatoryField { line, field, component: comp },
                ),
            }
        }
    } else {
        convert(sch, c.kind, t, line, field, comp)
    }
}

/// Parses one composite element token against its components: the token is split
/// on the component delimiter and the pieces are mapped onto the components in
/// order. More pieces than components is an error.
pub fn parse_inner(
    sch: &Schema,
    specs: &Vec<ComponentSpec>,
    token: &Vec<char>,
    line: usize,
    field: usize,
) -> (r: Result<Vec<Component>, ParseError>)
    requires
        sch.wf(),
        forall|i: int| 0 <= i < specs@.len() ==> sch.leaf_wf(#[trigger] specs@[i].kind),
    ensures
        match r {
            Ok(cs) => parse_composite(*sch, specs@, token@, line as int, field as int) == Ok::<
                Seq<ComponentModel>,
                ErrorModel,
            >(components_view(cs@)),
            Err(e) => parse_composite(*sch, specs@, token@, line as int, field as int) == Err::<
                Seq<ComponentModel>,
                ErrorModel,
            >(e@),
        },
{
    let toks = split_on(token.as_slice(), sch.delimiters.component);
    if toks.len() > specs.len() {
        return Err(
            ParseError::TooManyFields { line, element: Some(field), raw: copy_chars(token.as_slice()) },
        );
    }
    let mut out: Vec<Component> = Vec::new();
    let mut k: usize = 0;
    assert(components_view(out@) =~= Seq::<ComponentModel>::empty());
    while k < specs.len()
        invariant
            0 <= k <= specs@.len(),
            sch.wf(),
            forall|i: int| 0 <= i < specs@.len() ==> sch.leaf_wf(#[trigger] specs@[i].kind),
            views(toks@) == split(token@, sch.delimiters.component),
            toks@.len() <= specs@.len(),
            parse_components(*sch, specs@, views(toks@), k as int, line as int, field as int)
                == Ok::<Seq<ComponentModel>, ErrorModel>(components_view(out@)),
        decreases specs@.len() - k,
    {
        let c = specs[k];
        let ghost before = components_view(out@);
        match leaf(sch, c, &toks, k, line, field) {
            Ok(v) => {
                out.push(v);
                assert(components_view(out@) =~= before.push(v@));
            },
            Err(e) => {
                proof {
                    assert(parse_components(*sch, specs@, views(toks@), k + 1, line as int, field as int)
                        == Err::<Seq<ComponentModel>, ErrorModel>(e@));
                    lemma_components_err(
                        *sch,
                        specs@,
                        views(toks@),
                        k + 1,
                        specs@.len() as int,
                        line as int,
                        field as int,
                    );
                }
                return Err(e);
            },
        }
        k = k + 1;
    }
    Ok(out)
}

/// The text of one component.
pub(crate) fn leaf_text(sch: &Schema, kind: LeafKind, c: &Component) -> (r: Vec<char>)
    requires
        sch.leaf_wf(kind),
    ensures
        r@ == render_leaf(*sch, kind, c@),
{
    match c {
        Component::Absent => Vec::new(),
        Component::Text(t) => copy_chars(t.as_slice()),
        Component::Code(i) => match kind {
            LeafKind::Coded(ti) => {
                let codes = &sch.tables[ti].codes;
                if *i < codes.len() {
                    copy_chars(codes[*i].as_slice())
                } else {
                    Vec::new()
                }
            },
            LeafKind::Text => Vec::new(),
        },
    }
}

/// Renders a composite element: the components' texts joined with the component
/// delimiter, with the delimiters that trailing absent components leave removed.
pub fn display_inner(sch: &Schema, specs: &Vec<ComponentSpec>, cs: &Vec<Component>) -> (r: Vec<char>)
    requires
        cs@.len() == specs@.len(),
        forall|i: int| 0 <= i < specs@.len() ==> sch.leaf_wf(#[trigger] specs@[i].kind),
    ensures
        r@ == render_composite(*sch, specs@, components_view(cs@)),
{
    let ghost want = component_tokens(*sch, specs@, components_view(cs@));
    let mut toks: Vec<Vec<char>> = Vec::new();
    let mut i: usize = 0;
    while i < cs.len()
        invariant
            0 <= i <= cs@.len(),
            cs@.len() == specs@.len(),
            forall|j: int| 0 <= j < specs@.len() ==> sch.leaf_wf(#[trigger] specs@[j].kind),
            want == component_tokens(*sch, specs@, components_view(cs@)),
            views(toks@) == want.subrange(0, i as int),
        decreases cs@.len() - i,
    {
        let t = leaf_text(sch, specs[i].kind, &cs[i]);
        assert(components_view(cs@)[i as int] == cs@[i as int]@);
        assert(t@ == want[i as int]);
        let ghost old_toks = toks@;
        toks.push(t);
        assert(views(toks@) =~= views(old_toks).push(t@));
        assert(views(toks@) =~= want.subrange(0, i + 1));
        i = i + 1;
    }
    assert(want.subrange(0, cs@.len() as int) =~= want);
    let mut out = join_with(&toks, sch.delimiters.component);
    trim_trailing_in_place(&mut out, sch.delimiters.component);
    out
}

/// An element from a present token: a simple element is a mandatory component,
/// a composite one is split into its components.
pub open spec fn parse_element_model(
    sch: Schema,
    e: ElementSpec,
    t: Seq<char>,
    line: int,
    field: int,
) -> Result<ElementModel, ErrorModel> {
    match e {
        ElementSpec::Simple(kind) => match parse_present_leaf(
            sch,
            ComponentSpec { kind, mandatory: true },
            t,
            line,
            field,
            0,
        ) {
            Ok(c) => Ok(ElementModel::Simple(c)),
            Err(e) => Err(e),
        },
        ElementSpec::Composite(specs) => match parse_composite(sch, specs@, t, line, field) {
            Ok(cs) => Ok(ElementModel::Composite(cs)),
            Err(e) => Err(e),
        },
    }
}

/// The text of one element; an entry whose shape differs from the schema renders empty.
pub open spec fn render_element(sch: Schema, e: ElementSpec, v: ElementModel) -> Seq<char> {
    match e {
        ElementSpec::Simple(kind) => match v {
            ElementModel::Simple(c) => render_leaf(sch, kind, c),
            _ => Seq::empty(),
        },
        ElementSpec::Composite(specs) => match v {
            ElementModel::Composite(cs) => if cs.len() == specs@.len() {
                render_composite(sch, specs@, cs)
            } else {
                Seq::empty()
            },
            _ => Seq::empty(),
        },
    }
}

/// Parses one element token: a simple element is converted as a whole, a
/// composite one is split into its components.
pub fn parse_element(
    sch: &Schema,
    e: &ElementSpec,
    t: &Vec<char>,
    line: usize,
    field: usize,
) -> (r: Result<Element, ParseError>)
    requires
        sch.wf(),
        sch.element_wf(*e),
    ensures
        match r {
            Ok(v) => parse_element_model(*sch, *e, t@, line as int, field as int) == Ok::<
                ElementModel,
                ErrorModel,
            >(v@),
            Err(err) => parse_element_model(*sch, *e, t@, line as int, field as int) == Err::<
                ElementModel,
                ErrorModel,
            >(err@),
        },
{
    match e {
        ElementSpec::Simple(kind) => {
            match present_leaf(sch, ComponentSpec { kind: *kind, mandatory: true }, t, line, field, 0) {
                Ok(c) => Ok(Element::Simple(c)),
                Err(err) => Err(err),
            }
        },
        ElementSpec::Composite(specs) => match parse_inner(sch, specs, t, line, field) {
            Ok(cs) => Ok(Element::Composite(cs)),
            Err(err) => Err(err),
        },
    }
}


/// The text of one element; see `render_element`.
pub(crate) fn display_element(sch: &Schema, e: &ElementSpec, v: &Element) -> (r: Vec<char>)
    requires
        sch.element_wf(*e),
    ensures
        r@ == render_element(*sch, *e, v@),
{
    match e {
        ElementSpec::Simple(kind) => match v {
            Element::Simple(c) => crate::element::leaf_text(sch, *kind, c),
            _ => Vec::new(),
        },
        ElementSpec::Composite(specs) => match v {
            Element::Composite(cs) => {
                if cs.len() == specs.len() {
                    display_inner(sch, specs, cs)
                } else {
                    Vec::new()
                }
            },
            _ => Vec::new(),
        },
    }
}

} // verus!
