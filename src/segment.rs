//! Segments: one line of text, a tag followed by fields.
use vstd::prelude::*;
use crate::element::{
    copy_chars, display_element, parse_element, parse_element_model, render_element, token_at,
};
use crate::error::{ErrorModel, ParseError};
use crate::schema::{ElementSpec, FieldSpec, Occurrence, Schema, SegmentSpec};
use crate::text::{
    join, join_with, push_all, same_chars, split, split_on, trim_trailing, trim_trailing_in_place,
    views,
};
use crate::value::{Element, ElementModel, SegmentModel, SegmentValue, elements_view, fields_view};

verus! {

/// The entries of a single or optional field from its token: a missing token, or
/// an empty one for an optional field, gives no entry; for a mandatory field that
/// is missing, or empty and composite, it is an error. Any other token gives one
/// entry (an empty one for a mandatory simple field is read as a mandatory
/// component).
pub open spec fn parse_field(
    sch: Schema,
    f: FieldSpec,
    tok: Option<Seq<char>>,
    line: int,
    field: int,
) -> Result<Seq<ElementModel>, ErrorModel> {
    let mandatory = f.occurrence == Occurrence::Mandatory;
    let missing = ErrorModel::MissingMandatoryField {
        line: line as usize,
        field: field as usize,
        component: 0,
    };
    match tok {
        None => if mandatory {
            Err(missing)
        } else {
            Ok(Seq::empty())
        },
        Some(t) => if t.len() == 0 && !mandatory {
            Ok(Seq::empty())
        } else if t.len() == 0 && f.element is Composite {
            Err(missing)
        } else {
            match parse_element_model(sch, f.element, t, line, field) {
                Ok(v) => Ok(seq![v]),
                Err(e) => Err(e),
            }
        },
    }
}

/// The entries of a list field from the tokens in `[start, n)`: each non-empty
/// token gives one entry, empty ones are skipped.
pub open spec fn parse_list(
    sch: Schema,
    e: ElementSpec,
    toks: Seq<Seq<char>>,
    start: int,
    n: int,
    line: int,
) -> Result<Seq<ElementModel>, ErrorModel>
    decreases n - start,
{
    if n <= start {
        Ok(Seq::empty())
    } else {
        match parse_list(sch, e, toks, start, n - 1, line) {
            Err(err) => Err(err),
            Ok(es) => if toks[n - 1].len() == 0 {
                Ok(es)
            } else {
                match parse_element_model(sch, e, toks[n - 1], line, n - 1) {
                    Ok(v) => Ok(es.push(v)),
                    Err(err) => Err(err),
                }
            },
        }
    }
}

/// The entries of the first `n` fields of `seg` from the line's element tokens
/// (the tag excluded).
pub open spec fn parse_fields(
    sch: Schema,
    seg: SegmentSpec,
    toks: Seq<Seq<char>>,
    n: int,
    line: int,
) -> Result<Seq<Seq<ElementModel>>, ErrorModel>
    decreases n,
{
    if n <= 0 {
        Ok(Seq::empty())
    } else {
        match parse_fields(sch, seg, toks, n - 1, line) {
            Err(e) => Err(e),
            Ok(fs) => {
                let f = seg.fields@[n - 1];
                let r = if f.occurrence == Occurrence::List {
                    parse_list(sch, f.element, toks, n - 1, toks.len() as int, line)
                } else {
                    parse_field(sch, f, token_at(toks, n - 1), line, n - 1)
                };
                match r {
                    Err(e) => Err(e),
                    Ok(es) => Ok(fs.push(es)),
                }
            },
        }
    }
}

/// Whether the segment's last field is a list, which takes every remaining element.
pub open spec fn ends_in_list(seg: SegmentSpec) -> bool {
    seg.fields@.len() > 0 && seg.fields@.last().occurrence == Occurrence::List
}

/// Whether `line` carries tag `tag` as its first element.
pub open spec fn has_tag(line: Seq<char>, tag: Seq<char>, d: char) -> bool {
    split(line, d)[0] == tag
}

/// Segment `si` parsed from `line`, the line with index `pos`.
pub open spec fn parse_segment_line(
    sch: Schema,
    si: int,
    line: Seq<char>,
    pos: int,
) -> Result<SegmentModel, ErrorModel> {
    let seg = sch.segments@[si];
    let all = split(line, sch.delimiters.element);
    let toks = all.drop_first();
    if all[0] != seg.tag@ {
        Err(
            ErrorModel::UnexpectedSegmentTag {
                line: pos as usize,
                expected: Some(si as usize),
                found: all[0],
            },
        )
    } else if !ends_in_list(seg) && toks.len() > seg.fields@.len() {
        Err(ErrorModel::TooManyFields { line: pos as usize, element: None, raw: line })
    } else {
        match parse_fields(sch, seg, toks, seg.fields@.len() as int, pos) {
            Ok(fs) => Ok(SegmentModel { fields: fs }),
            Err(e) => Err(e),
        }
    }
}

/// The entries of field `f`, none where the value has fewer fields.
pub open spec fn entries_of(v: SegmentModel, f: int) -> Seq<ElementModel> {
    if 0 <= f < v.fields.len() {
        v.fields[f]
    } else {
        Seq::empty()
    }
}

/// The tokens of one field: one per entry, or a single empty one when it has none.
pub open spec fn entry_tokens(sch: Schema, e: ElementSpec, es: Seq<ElementModel>) -> Seq<
    Seq<char>,
> {
    if es.len() == 0 {
        seq![Seq::empty()]
    } else {
        Seq::new(es.len(), |j: int| render_element(sch, e, es[j]))
    }
}

/// The tokens of the first `n` fields.
pub open spec fn field_tokens(sch: Schema, seg: SegmentSpec, v: SegmentModel, n: int) -> Seq<
    Seq<char>,
>
    decreases n,
{
    if n <= 0 {
        Seq::empty()
    } else {
        field_tokens(sch, seg, v, n - 1) + entry_tokens(
            sch,
            seg.fields@[n - 1].element,
            entries_of(v, n - 1),
        )
    }
}

/// The tokens of a segment line: its tag, then its fields.
pub open spec fn segment_tokens(sch: Schema, si: int, v: SegmentModel) -> Seq<Seq<char>> {
    let seg = sch.segments@[si];
    seq![seg.tag@] + field_tokens(sch, seg, v, seg.fields@.len() as int)
}

/// The line of segment `si`: its tokens joined with the element delimiter, with
/// trailing delimiters removed; empty when no field contributed anything.
pub open spec fn render_segment(sch: Schema, si: int, v: SegmentModel) -> Seq<char> {
    let d = sch.delimiters.element;
    let l = trim_trailing(join(segment_tokens(sch, si, v), d), d);
    if l.len() <= sch.segments@[si].tag@.len() + 1 {
        Seq::empty()
    } else {
        l
    }
}


/// Once a prefix of a list fails, the whole list fails alike.
pub proof fn lemma_list_err(
    sch: Schema,
    e: ElementSpec,
    toks: Seq<Seq<char>>,
    start: int,
    k: int,
    n: int,
    line: int,
)
    requires
        k <= n,
        parse_list(sch, e, toks, start, k, line) is Err,
    ensures
        parse_list(sch, e, toks, start, n, line) == parse_list(sch, e, toks, start, k, line),
    decreases n - k,
{
    if k < n {
        lemma_list_err(sch, e, toks, start, k, n - 1, line);
    }
}

/// Once a prefix of the fields fails, the whole segment fails alike.
pub proof fn lemma_fields_err(
    sch: Schema,
    seg: SegmentSpec,
    toks: Seq<Seq<char>>,
    k: int,
    n: int,
    line: int,
)
    requires
        0 <= k <= n,
        parse_fields(sch, seg, toks, k, line) is Err,
    ensures
        parse_fields(sch, seg, toks, n, line) == parse_fields(sch, seg, toks, k, line),
    decreases n - k,
{
    if k < n {
        lemma_fields_err(sch, seg, toks, k, n - 1, line);
    }
}

/// The entries of a single or optional field; see `parse_field`.
fn field_entries(
    sch: &Schema,
    f: &FieldSpec,
    toks: &Vec<Vec<char>>,
    i: usize,
    line: usize,
) -> (r: Result<Vec<Element>, ParseError>)
    requires
        sch.wf(),
        sch.element_wf(f.element),
    ensures
        match r {
            Ok(es) => parse_field(*sch, *f, token_at(views(toks@), i as int), line as int, i as int)
                == Ok::<Seq<ElementModel>, ErrorModel>(elements_view(es@)),
            Err(e) => parse_field(*sch, *f, token_at(views(toks@), i as int), line as int, i as int)
                == Err::<Seq<ElementModel>, ErrorModel>(e@),
        },
{
    let mandatory = match f.occurrence {
        Occurrence::Mandatory => true,
        _ => false,
    };
    let mut out: Vec<Element> = Vec::new();
    if i >= toks.len() {
        if mandatory {
            return Err(ParseError::MissingMandatoryField { line, field: i, component: 0 });
        }
        assert(elements_view(out@) =~= Seq::<ElementModel>::empty());
        return Ok(out);
    }
    if toks[i].len() == 0 {
        if !mandatory {
            assert(elements_view(out@) =~= Seq::<ElementModel>::empty());
            return Ok(out);
        }
        if let ElementSpec::Composite(_) = f.element {
            return Err(ParseError::MissingMandatoryField { line, field: i, component: 0 });
        }
    }
    match parse_element(sch, &f.element, &toks[i], line, i) {
        Ok(v) => {
            out.push(v);
            assert(elements_view(out@) =~= seq![v@]);
            Ok(out)
        },
        Err(e) => Err(e),
    }
}

/// The entries of a list field: one per non-empty token from `start` on.
fn list_entries(
    sch: &Schema,
    e: &ElementSpec,
    toks: &Vec<Vec<char>>,
    start: usize,
    line: usize,
) -> (r: Result<Vec<Element>, ParseError>)
    requires
        sch.wf(),
        sch.element_wf(*e),
    ensures
        match r {
            Ok(es) => parse_list(*sch, *e, views(toks@), start as int, toks@.len() as int, line as int)
                == Ok::<Seq<ElementModel>, ErrorModel>(elements_view(es@)),
            Err(err) => parse_list(*sch, *e, views(toks@), start as int, toks@.len() as int, line as int)
                == Err::<Seq<ElementModel>, ErrorModel>(err@),
        },
{
    let mut out: Vec<Element> = Vec::new();
    let mut n: usize = start;
    assert(elements_view(out@) =~= Seq::<ElementModel>::empty());
    if n > toks.len() {
        return Ok(out);
    }
    while n < toks.len()
        invariant
            start <= n <= toks@.len(),
            sch.wf(),
            sch.element_wf(*e),
            parse_list(*sch, *e, views(toks@), start as int, n as int, line as int) == Ok::<
                Seq<ElementModel>,
                ErrorModel,
            >(elements_view(out@)),
        decreases toks@.len() - n,
    {
        let ghost before = elements_view(out@);
        if toks[n].len() > 0 {
            match parse_element(sch, e, &toks[n], line, n) {
                Ok(v) => {
                    out.push(v);
                    assert(elements_view(out@) =~= before.push(v@));
                },
                Err(err) => {
                    proof {
                        lemma_list_err(
                            *sch,
                            *e,
                            views(toks@),
                            start as int,
                            n + 1,
                            toks@.len() as int,
                            line as int,
                        );
                    }
                    return Err(err);
                },
            }
        }
        n = n + 1;
    }
    Ok(out)
}

/// The entries of every field of `seg` from the line's element tokens.
fn parse_fields_exec(
    sch: &Schema,
    seg: &SegmentSpec,
    toks: &Vec<Vec<char>>,
    line: usize,
) -> (r: Result<Vec<Vec<Element>>, ParseError>)
    requires
        sch.wf(),
        forall|f: int| 0 <= f < seg.fields@.len() ==> sch.element_wf(#[trigger] seg.fields@[f].element),
    ensures
        match r {
            Ok(fs) => parse_fields(*sch, *seg, views(toks@), seg.fields@.len() as int, line as int)
                == Ok::<Seq<Seq<ElementModel>>, ErrorModel>(fields_view(fs@)),
            Err(e) => parse_fields(*sch, *seg, views(toks@), seg.fields@.len() as int, line as int)
                == Err::<Seq<Seq<ElementModel>>, ErrorModel>(e@),
        },
{
    let mut out: Vec<Vec<Element>> = Vec::new();
    let mut k: usize = 0;
    assert(fields_view(out@) =~= Seq::<Seq<ElementModel>>::empty());
    while k < seg.fields.len()
        invariant
            0 <= k <= seg.fields@.len(),
            sch.wf(),
            forall|f: int| 0 <= f < seg.fields@.len() ==> sch.element_wf(#[trigger] seg.fields@[f].element),
            parse_fields(*sch, *seg, views(toks@), k as int, line as int) == Ok::<
                Seq<Seq<ElementModel>>,
                ErrorModel,
            >(fields_view(out@)),
        decreases seg.fields@.len() - k,
    {
        let f = &seg.fields[k];
        let ghost before = fields_view(out@);
        let r = match f.occurrence {
            Occurrence::List => list_entries(sch, &f.element, toks, k, line),
            _ => field_entries(sch, f, toks, k, line),
        };
        match r {
            Ok(es) => {
                let ghost ev = elements_view(es@);
                out.push(es);
                assert(fields_view(out@) =~= before.push(ev));
            },
            Err(e) => {
                proof {
                    lemma_fields_err(
                        *sch,
                        *seg,
                        views(toks@),
                        k + 1,
                        seg.fields@.len() as int,
                        line as int,
                    );
                }
                return Err(e);
            },
        }
        k = k + 1;
    }
    Ok(out)
}

/// Parses the line with index `pos`, holding no terminator, as segment `si`.
fn parse_line(sch: &Schema, si: usize, line: &Vec<char>, pos: usize) -> (r: Result<
    SegmentValue,
    ParseError,
>)
    requires
        sch.wf(),
        si < sch.segments@.len(),
    ensures
        match r {
            Ok(v) => parse_segment_line(*sch, si as int, line@, pos as int) == Ok::<
                SegmentModel,
                ErrorModel,
            >(v@),
            Err(e) => parse_segment_line(*sch, si as int, line@, pos as int) == Err::<
                SegmentModel,
                ErrorModel,
            >(e@),
        },
{
    let seg = &sch.segments[si];
    assert(sch.segment_wf(si as int));
    let mut all = split_on(line.as_slice(), sch.delimiters.element);
    proof {
        crate::text::lemma_split_nonempty(line@, sch.delimiters.element);
    }
    if !same_chars(all[0].as_slice(), seg.tag.as_slice()) {
        return Err(
            ParseError::UnexpectedSegmentTag {
                line: pos,
                expected: Some(si),
                found: copy_chars(all[0].as_slice()),
            },
        );
    }
    let ghost whole = views(all@);
    all.remove(0);
    assert(views(all@) =~= whole.drop_first());
    let nf = seg.fields.len();
    let list = nf > 0 && match seg.fields[nf - 1].occurrence {
        Occurrence::List => true,
        _ => false,
    };
    if !list && all.len() > nf {
        return Err(
            ParseError::TooManyFields { line: pos, element: None, raw: copy_chars(line.as_slice()) },
        );
    }
    match parse_fields_exec(sch, seg, &all, pos) {
        Ok(fs) => Ok(SegmentValue { fields: fs }),
        Err(e) => Err(e),
    }
}

/// Parses one segment line of the given schema segment. A trailing terminator is
/// ignored; `pos` is the line's index, which errors report.
pub fn parse_outer(sch: &Schema, si: usize, line: &Vec<char>, pos: usize) -> (r: Result<
    SegmentValue,
    ParseError,
>)
    requires
        sch.wf(),
        si < sch.segments@.len(),
    ensures
        match r {
            Ok(v) => parse_segment_line(
                *sch,
                si as int,
                trim_trailing(line@, sch.delimiters.terminator),
                pos as int,
            ) == Ok::<SegmentModel, ErrorModel>(v@),
            Err(e) => parse_segment_line(
                *sch,
                si as int,
                trim_trailing(line@, sch.delimiters.terminator),
                pos as int,
            ) == Err::<SegmentModel, ErrorModel>(e@),
        },
{
    let mut l: Vec<char> = Vec::new();
    push_all(&mut l, line.as_slice());
    assert(l@ =~= line@);
    trim_trailing_in_place(&mut l, sch.delimiters.terminator);
    parse_line(sch, si, &l, pos)
}

/// Segment `si` read from the line at the cursor `pos`, and the cursor after it.
pub open spec fn parse_segment_at(sch: Schema, si: int, lines: Seq<Seq<char>>, pos: int) -> Result<
    (SegmentModel, int),
    ErrorModel,
> {
    if pos < 0 || pos >= lines.len() {
        Err(
            ErrorModel::UnexpectedSegmentTag {
                line: pos as usize,
                expected: Some(si as usize),
                found: Seq::empty(),
            },
        )
    } else {
        match parse_segment_line(sch, si, lines[pos], pos) {
            Ok(v) => Ok((v, pos + 1)),
            Err(e) => Err(e),
        }
    }
}

/// Parses segment `si` from the line at the cursor `pos` and moves the cursor
/// past it. At the end of the input the tag is missing.
pub fn parse_segment(sch: &Schema, si: usize, lines: &Vec<Vec<char>>, pos: usize) -> (r: Result<
    (SegmentValue, usize),
    ParseError,
>)
    requires
        sch.wf(),
        si < sch.segments@.len(),
    ensures
        match r {
            Ok((v, p)) => parse_segment_at(*sch, si as int, views(lines@), pos as int) == Ok::<
                (SegmentModel, int),
                ErrorModel,
            >((v@, p as int)),
            Err(e) => parse_segment_at(*sch, si as int, views(lines@), pos as int) == Err::<
                (SegmentModel, int),
                ErrorModel,
            >(e@),
        },
{
    if pos >= lines.len() {
        return Err(
            ParseError::UnexpectedSegmentTag { line: pos, expected: Some(si), found: Vec::new() },
        );
    }
    match parse_line(sch, si, &lines[pos], pos) {
        Ok(v) => Ok((v, pos + 1)),
        Err(e) => Err(e),
    }
}


/// Renders a segment as one line without terminator: the tag, then each field's
/// tokens (one per entry, a single empty one for a field without entries), joined
/// with the element delimiter and with trailing delimiters removed. A segment to
/// which no field contributed anything renders as the empty line.
pub fn display_outer(sch: &Schema, si: usize, v: &SegmentValue) -> (r: Vec<char>)
    requires
        sch.renderable(),
        si < sch.segments@.len(),
    ensures
        r@ == render_segment(*sch, si as int, v@),
{
    let seg = &sch.segments[si];
    assert(sch.fields_wf(si as int));
    let ghost m = v@;
    let mut toks: Vec<Vec<char>> = Vec::new();
    toks.push(copy_chars(seg.tag.as_slice()));
    let mut k: usize = 0;
    assert(views(toks@) =~= seq![seg.tag@] + field_tokens(*sch, *seg, m, 0));
    while k < seg.fields.len()
        invariant
            0 <= k <= seg.fields@.len(),
            seg == sch.segments@[si as int],
            sch.fields_wf(si as int),
            m == v@,
            views(toks@) == seq![seg.tag@] + field_tokens(*sch, *seg, m, k as int),
        decreases seg.fields@.len() - k,
    {
        let e = &seg.fields[k].element;
        let ghost want = entry_tokens(*sch, *e, entries_of(m, k as int));
        let ghost base = views(toks@);
        if k >= v.fields.len() || v.fields[k].len() == 0 {
            toks.push(Vec::new());
            assert(views(toks@) =~= base + want);
        } else {
            let es = &v.fields[k];
            assert(entries_of(m, k as int) == elements_view(es@));
            let mut j: usize = 0;
            assert(views(toks@) =~= base + want.subrange(0, 0));
            while j < es.len()
                invariant
                    0 <= j <= es@.len(),
                    sch.element_wf(*e),
                    want == entry_tokens(*sch, *e, elements_view(es@)),
                    es@.len() > 0,
                    views(toks@) == base + want.subrange(0, j as int),
                decreases es@.len() - j,
            {
                let t = display_element(sch, e, &es[j]);
                assert(t@ == want[j as int]);
                let ghost prev = views(toks@);
                toks.push(t);
                assert(views(toks@) =~= prev.push(t@));
                assert(views(toks@) =~= base + want.subrange(0, j + 1));
                j = j + 1;
            }
            assert(want.subrange(0, es@.len() as int) =~= want);
        }
        proof {
            assert(field_tokens(*sch, *seg, m, k + 1) == field_tokens(*sch, *seg, m, k as int) + want);
            assert(views(toks@) =~= seq![seg.tag@] + field_tokens(*sch, *seg, m, k + 1));
        }
        k = k + 1;
    }
    let mut out = join_with(&toks, sch.delimiters.element);
    trim_trailing_in_place(&mut out, sch.delimiters.element);
    if out.len() <= seg.tag.len() {
        return Vec::new();
    }
    if out.len() - 1 == seg.tag.len() {
        return Vec::new();
    }
    out
}

} // verus!
