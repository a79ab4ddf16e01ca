//! Whole messages: text to lines, lines to the root group, and back.
use vstd::prelude::*;
use crate::error::{ErrorModel, ParseError};
use crate::group::{display_edifact_sg, parse_group, parse_sg, render_group};
use crate::schema::Schema;
use crate::text::{join, join_with, split, split_on, strip_start, views};
use crate::value::{GroupModel, GroupValue};

verus! {

/// The characters that may separate a terminator from the next line.
pub open spec fn line_breaks() -> Seq<char> {
    seq!['\n', '\r']
}

/// The lines of a message text: the pieces between terminators, each without the
/// line breaks at its start, and without an empty last piece.
pub open spec fn message_lines(text: Seq<char>, t: char) -> Seq<Seq<char>> {
    let pieces = split(text, t).map_values(|p: Seq<char>| strip_start(p, line_breaks()));
    if pieces.len() > 0 && pieces.last().len() == 0 {
        pieces.drop_last()
    } else {
        pieces
    }
}

/// A message parsed from its text: the root group must take every line.
pub open spec fn parse_message(sch: Schema, text: Seq<char>) -> Result<GroupModel, ErrorModel> {
    let lines = message_lines(text, sch.delimiters.terminator);
    match parse_group(sch, 0, lines, 0) {
        Err(e) => Err(e),
        Ok((v, p)) => if p < lines.len() {
            Err(
                ErrorModel::UnexpectedSegmentTag {
                    line: p as usize,
                    expected: None,
                    found: split(lines[p], sch.delimiters.element)[0],
                },
            )
        } else {
            Ok(v)
        },
    }
}

/// Lines written out: each followed by the terminator, one per text line.
pub open spec fn message_text(lines: Seq<Seq<char>>, t: char) -> Seq<char> {
    join(lines.map_values(|l: Seq<char>| l.push(t)), '\n')
}

/// The text of a message.
pub open spec fn render_message(sch: Schema, v: GroupModel) -> Seq<char> {
    message_text(render_group(sch, 0, v), sch.delimiters.terminator)
}

/// `s` without the line breaks at its start.
fn skip_breaks(s: &Vec<char>) -> (r: Vec<char>)
    ensures
        r@ == strip_start(s@, line_breaks()),
{
    let mut lo: usize = 0;
    assert(s@.subrange(0, s@.len() as int) =~= s@);
    while lo < s.len() && (s[lo] == '\n' || s[lo] == '\r')
        invariant
            0 <= lo <= s@.len(),
            strip_start(s@.subrange(lo as int, s@.len() as int), line_breaks()) == strip_start(
                s@,
                line_breaks(),
            ),
        decreases s@.len() - lo,
    {
        assert(line_breaks().contains(s@[lo as int])) by {
            assert(line_breaks()[0] == '\n');
            assert(line_breaks()[1] == '\r');
        }
        assert(s@.subrange(lo as int, s@.len() as int).drop_first() =~= s@.subrange(
            lo + 1,
            s@.len() as int,
        ));
        lo = lo + 1;
    }
    if lo < s.len() {
        assert(!line_breaks().contains(s@[lo as int])) by {
            if line_breaks().contains(s@[lo as int]) {
                let i = choose|i: int| 0 <= i < 2 && line_breaks()[i] == s@[lo as int];
            }
        }
    }
    let mut r: Vec<char> = Vec::new();
    let mut i: usize = lo;
    while i < s.len()
        invariant
            lo <= i <= s@.len(),
            r@ == s@.subrange(lo as int, i as int),
        decreases s@.len() - i,
    {
        r.push(s[i]);
        i = i + 1;
        assert(r@ =~= s@.subrange(lo as int, i as int));
    }
    r
}

/// Splits a message text into its lines: the pieces between terminators, line
/// breaks after a terminator skipped, an empty last piece dropped.
pub fn split_lines(text: &Vec<char>, t: char) -> (r: Vec<Vec<char>>)
    ensures
        views(r@) == message_lines(text@, t),
{
    let pieces = split_on(text.as_slice(), t);
    let ghost want = split(text@, t).map_values(|p: Seq<char>| strip_start(p, line_breaks()));
    let mut out: Vec<Vec<char>> = Vec::new();
    let mut i: usize = 0;
    while i < pieces.len()
        invariant
            0 <= i <= pieces@.len(),
            views(pieces@) == split(text@, t),
            want == split(text@, t).map_values(|p: Seq<char>| strip_start(p, line_breaks())),
            views(out@) == want.subrange(0, i as int),
        decreases pieces@.len() - i,
    {
        let p = skip_breaks(&pieces[i]);
        let ghost prev = views(out@);
        assert(views(pieces@)[i as int] == pieces@[i as int]@);
        assert(p@ == want[i as int]);
        out.push(p);
        assert(views(out@) =~= prev.push(p@));
        assert(views(out@) =~= want.subrange(0, i + 1));
        i = i + 1;
    }
    assert(want.subrange(0, pieces@.len() as int) =~= want);
    if out.len() > 0 && out[out.len() - 1].len() == 0 {
        let ghost full = views(out@);
        out.pop();
        assert(views(out@) =~= full.drop_last());
    }
    out
}

/// Parses a whole message against the schema's root group. Lines left over after
/// the root group are an error.
pub fn parse_msg(sch: &Schema, text: &Vec<char>) -> (r: Result<GroupValue, ParseError>)
    requires
        sch.wf(),
    ensures
        match r {
            Ok(v) => parse_message(*sch, text@) == Ok::<GroupModel, ErrorModel>(v@),
            Err(e) => parse_message(*sch, text@) == Err::<GroupModel, ErrorModel>(e@),
        },
{
    let lines = split_lines(text, sch.delimiters.terminator);
    match parse_sg(sch, 0, &lines, 0) {
        Err(e) => Err(e),
        Ok((v, p)) => {
            if p < lines.len() {
                let parts = split_on(lines[p].as_slice(), sch.delimiters.element);
                proof {
                    crate::text::lemma_split_nonempty(lines@[p as int]@, sch.delimiters.element);
                }
                let mut found: Vec<char> = Vec::new();
                crate::text::push_all(&mut found, parts[0].as_slice());
                Err(ParseError::UnexpectedSegmentTag { line: p, expected: None, found })
            } else {
                Ok(v)
            }
        },
    }
}

/// Renders a whole message: each non-empty line of the root group followed by the
/// terminator, one per text line.
pub fn display_edifact(sch: &Schema, v: &GroupValue) -> (r: Vec<char>)
    requires
        sch.renderable(),
    ensures
        r@ == render_message(*sch, v@),
{
    let lines = display_edifact_sg(sch, 0, v);
    let t = sch.delimiters.terminator;
    let ghost want = views(lines@).map_values(|l: Seq<char>| l.push(t));
    let mut done: Vec<Vec<char>> = Vec::new();
    let mut i: usize = 0;
    while i < lines.len()
        invariant
            0 <= i <= lines@.len(),
            want == views(lines@).map_values(|l: Seq<char>| l.push(t)),
            views(done@) == want.subrange(0, i as int),
        decreases lines@.len() - i,
    {
        let mut l: Vec<char> = Vec::new();
        crate::text::push_all(&mut l, lines[i].as_slice());
        l.push(t);
        assert(views(lines@)[i as int] == lines@[i as int]@);
        assert(l@ == want[i as int]);
        let ghost prev = views(done@);
        done.push(l);
        assert(views(done@) =~= prev.push(want[i as int]));
        assert(views(done@) =~= want.subrange(0, i + 1));
        i = i + 1;
    }
    assert(want.subrange(0, lines@.len() as int) =~= want);
    join_with(&done, '\n')
}

} // verus!
