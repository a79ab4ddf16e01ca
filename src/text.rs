//! Lexical helpers: splitting on a delimiter, joining, and trimming.
use vstd::prelude::*;

verus! {

/// The pieces of `s` between occurrences of `d`, empty pieces included.
/// There is always at least one piece.
pub open spec fn split(s: Seq<char>, d: char) -> Seq<Seq<char>>
    decreases s.len(),
{
    if s.len() == 0 {
        seq![Seq::empty()]
    } else {
        let p = split(s.drop_last(), d);
        if s.last() == d {
            p.push(Seq::empty())
        } else {
            p.update(p.len() - 1, p.last().push(s.last()))
        }
    }
}

/// The pieces joined with `d` between neighbours.
pub open spec fn join(parts: Seq<Seq<char>>, d: char) -> Seq<char>
    decreases parts.len(),
{
    if parts.len() == 0 {
        Seq::empty()
    } else if parts.len() == 1 {
        parts[0]
    } else {
        join(parts.drop_last(), d) + seq![d] + parts.last()
    }
}

/// `s` without the copies of `d` at its end.
pub open spec fn trim_trailing(s: Seq<char>, d: char) -> Seq<char>
    decreases s.len(),
{
    if s.len() > 0 && s.last() == d {
        trim_trailing(s.drop_last(), d)
    } else {
        s
    }
}

/// `s` without the characters of `pad` at its start.
pub open spec fn strip_start(s: Seq<char>, pad: Seq<char>) -> Seq<char>
    decreases s.len(),
{
    if s.len() > 0 && pad.contains(s[0]) {
        strip_start(s.drop_first(), pad)
    } else {
        s
    }
}

/// `s` without the characters of `pad` at its end.
pub open spec fn strip_end(s: Seq<char>, pad: Seq<char>) -> Seq<char>
    decreases s.len(),
{
    if s.len() > 0 && pad.contains(s.last()) {
        strip_end(s.drop_last(), pad)
    } else {
        s
    }
}

/// `s` with the padding characters removed from both ends.
pub open spec fn clean(s: Seq<char>, pad: Seq<char>) -> Seq<char> {
    strip_end(strip_start(s, pad), pad)
}

/// Whether `d` does not occur in `s`.
pub open spec fn free_of(s: Seq<char>, d: char) -> bool {
    !s.contains(d)
}

/// The views of a sequence of character vectors.
pub open spec fn views(v: Seq<Vec<char>>) -> Seq<Seq<char>> {
    v.map_values(|x: Vec<char>| x@)
}

/// `parts` without its trailing empty pieces, keeping at least one.
pub open spec fn trim_parts(parts: Seq<Seq<char>>) -> Seq<Seq<char>>
    decreases parts.len(),
{
    if parts.len() > 1 && parts.last().len() == 0 {
        trim_parts(parts.drop_last())
    } else {
        parts
    }
}

/// `n` empty pieces.
pub open spec fn empties(n: nat) -> Seq<Seq<char>> {
    Seq::new(n, |i: int| Seq::<char>::empty())
}

/// Whether no piece holds `d`.
pub open spec fn all_free_of(parts: Seq<Seq<char>>, d: char) -> bool {
    forall|i: int| 0 <= i < parts.len() ==> free_of(#[trigger] parts[i], d)
}

/// Trimming never lengthens.
pub proof fn lemma_trim_shorter(s: Seq<char>, d: char)
    ensures
        trim_trailing(s, d).len() <= s.len(),
    decreases s.len(),
{
    if s.len() > 0 && s.last() == d {
        lemma_trim_shorter(s.drop_last(), d);
    }
}

/// Joining one more empty piece adds a delimiter that trimming takes away again.
pub proof fn lemma_trim_join_push_empty(parts: Seq<Seq<char>>, d: char)
    requires
        parts.len() >= 1,
    ensures
        trim_trailing(join(parts.push(Seq::empty()), d), d) == trim_trailing(join(parts, d), d),
{
    let q = parts.push(Seq::empty());
    assert(q.drop_last() =~= parts);
    let j = join(parts, d);
    assert(join(q, d) =~= j.push(d));
    assert(j.push(d).drop_last() =~= j);
}

/// Trailing empty pieces do not change a trimmed join.
pub proof fn lemma_trim_join_empties(parts: Seq<Seq<char>>, n: nat, d: char)
    requires
        parts.len() >= 1,
    ensures
        trim_trailing(join(parts + empties(n), d), d) == trim_trailing(join(parts, d), d),
    decreases n,
{
    if n == 0 {
        assert(parts + empties(0) =~= parts);
    } else {
        lemma_trim_join_empties(parts, (n - 1) as nat, d);
        assert(parts + empties(n) =~= (parts + empties((n - 1) as nat)).push(Seq::empty()));
        lemma_trim_join_push_empty(parts + empties((n - 1) as nat), d);
    }
}

/// Splitting after appending text free of `d` extends the last piece.
pub proof fn lemma_split_append_free(x: Seq<char>, y: Seq<char>, d: char)
    requires
        free_of(y, d),
    ensures
        split(x + y, d) == split(x, d).update(
            split(x, d).len() - 1,
            split(x, d).last() + y,
        ),
    decreases y.len(),
{
    lemma_split_nonempty(x, d);
    if y.len() == 0 {
        assert(x + y =~= x);
        assert(split(x, d).last() + y =~= split(x, d).last());
        assert(split(x, d).update(split(x, d).len() - 1, split(x, d).last()) =~= split(x, d));
    } else {
        let y0 = y.drop_last();
        assert(y.last() != d) by {
            assert(y[y.len() - 1] == y.last());
        }
        lemma_split_append_free(x, y0, d);
        assert((x + y).drop_last() =~= x + y0);
        assert((x + y).last() == y.last());
        assert(y0.push(y.last()) =~= y);
        let p = split(x, d);
        assert((p.last() + y0).push(y.last()) =~= p.last() + y);
        assert(split(x + y, d) =~= p.update(p.len() - 1, p.last() + y));
    }
}

/// Splitting a join gives back the pieces, when no piece holds the delimiter.
pub proof fn lemma_split_join(parts: Seq<Seq<char>>, d: char)
    requires
        parts.len() >= 1,
        all_free_of(parts, d),
    ensures
        split(join(parts, d), d) == parts,
    decreases parts.len(),
{
    if parts.len() == 1 {
        lemma_split_append_free(Seq::empty(), parts[0], d);
        assert(Seq::<char>::empty() + parts[0] =~= parts[0]);
        assert(split(Seq::<char>::empty(), d).update(0, Seq::<char>::empty() + parts[0]) =~= parts);
    } else {
        let init = parts.drop_last();
        assert(all_free_of(init, d)) by {
            assert forall|i: int| 0 <= i < init.len() implies free_of(#[trigger] init[i], d) by {
                assert(init[i] == parts[i]);
            }
        }
        lemma_split_join(init, d);
        let j = join(init, d);
        assert(j.push(d).drop_last() =~= j);
        assert(split(j.push(d), d) == init.push(Seq::empty()));
        assert(free_of(parts.last(), d)) by {
            assert(parts[parts.len() - 1] == parts.last());
        }
        lemma_split_append_free(j.push(d), parts.last(), d);
        assert(join(parts, d) =~= j.push(d) + parts.last());
        assert(Seq::<char>::empty() + parts.last() =~= parts.last());
        assert(init.push(Seq::empty()).update(init.len() as int, Seq::<char>::empty() + parts.last())
            =~= parts);
    }
}

/// Trimming a join removes what the trailing empty pieces left.
pub proof fn lemma_trim_join(parts: Seq<Seq<char>>, d: char)
    requires
        parts.len() >= 1,
        all_free_of(parts, d),
    ensures
        trim_trailing(join(parts, d), d) == join(trim_parts(parts), d),
    decreases parts.len(),
{
    let last = parts.last();
    assert(free_of(last, d)) by {
        assert(parts[parts.len() - 1] == last);
    }
    if last.len() > 0 {
        assert(last[last.len() - 1] == last.last());
    }
    if parts.len() == 1 {
        assert(join(parts, d) == last);
    } else {
        let init = parts.drop_last();
        assert(all_free_of(init, d)) by {
            assert forall|i: int| 0 <= i < init.len() implies free_of(#[trigger] init[i], d) by {
                assert(init[i] == parts[i]);
            }
        }
        let j = join(parts, d);
        if last.len() == 0 {
            lemma_trim_join(init, d);
            assert(j =~= join(init, d).push(d));
            assert(j.drop_last() =~= join(init, d));
        } else {
            assert(j =~= join(init, d) + seq![d] + last);
            assert(j.last() == last.last());
        }
    }
}

/// What trimming keeps is a non-empty prefix, and what it drops is empty.
pub proof fn lemma_trim_parts(parts: Seq<Seq<char>>)
    requires
        parts.len() >= 1,
    ensures
        1 <= trim_parts(parts).len() <= parts.len(),
        trim_parts(parts) == parts.subrange(0, trim_parts(parts).len() as int),
        forall|i: int| trim_parts(parts).len() <= i < parts.len() ==> (#[trigger] parts[i]).len() == 0,
    decreases parts.len(),
{
    if parts.len() > 1 && parts.last().len() == 0 {
        let init = parts.drop_last();
        lemma_trim_parts(init);
        assert(init.subrange(0, trim_parts(init).len() as int) =~= parts.subrange(
            0,
            trim_parts(init).len() as int,
        ));
        assert forall|i: int| trim_parts(parts).len() <= i < parts.len() implies (#[trigger] parts[i]).len() == 0 by {
            if i < parts.len() - 1 {
                assert(parts[i] == init[i]);
            }
        }
    } else {
        assert(parts.subrange(0, parts.len() as int) =~= parts);
    }
}

/// A join of pieces free of `e` is free of `e`, when the delimiter is not `e`.
pub proof fn lemma_join_free(parts: Seq<Seq<char>>, d: char, e: char)
    requires
        all_free_of(parts, e),
        d != e,
    ensures
        free_of(join(parts, d), e),
    decreases parts.len(),
{
    if parts.len() == 1 {
        assert(free_of(parts[0], e));
    } else if parts.len() > 1 {
        let init = parts.drop_last();
        assert(all_free_of(init, e)) by {
            assert forall|i: int| 0 <= i < init.len() implies free_of(#[trigger] init[i], e) by {
                assert(init[i] == parts[i]);
            }
        }
        lemma_join_free(init, d, e);
        assert(free_of(parts[parts.len() - 1], e));
        let j = join(parts, d);
        assert(j =~= join(init, d) + seq![d] + parts.last());
        assert forall|i: int| 0 <= i < j.len() implies j[i] != e by {
            if i < join(init, d).len() {
                assert(j[i] == join(init, d)[i]);
            } else if i > join(init, d).len() {
                assert(j[i] == parts.last()[i - join(init, d).len() - 1]);
            }
        }
    }
}

/// Trimming keeps a prefix, so it keeps `s` free of `e`.
pub proof fn lemma_trim_free(s: Seq<char>, d: char, e: char)
    requires
        free_of(s, e),
    ensures
        free_of(trim_trailing(s, d), e),
    decreases s.len(),
{
    if s.len() > 0 && s.last() == d {
        assert forall|i: int| 0 <= i < s.drop_last().len() implies s.drop_last()[i] != e by {
            assert(s.drop_last()[i] == s[i]);
        }
        lemma_trim_free(s.drop_last(), d, e);
    }
}

/// A join is at least as long as each of its pieces.
pub proof fn lemma_join_len(parts: Seq<Seq<char>>, d: char, i: int)
    requires
        0 <= i < parts.len(),
    ensures
        join(parts, d).len() >= parts[i].len(),
    decreases parts.len(),
{
    if parts.len() > 1 {
        let init = parts.drop_last();
        if i < parts.len() - 1 {
            lemma_join_len(init, d, i);
            assert(init[i] == parts[i]);
        }
    }
}

/// A join starts with its first piece.
pub proof fn lemma_join_head(parts: Seq<Seq<char>>, d: char, i: int)
    requires
        parts.len() >= 1,
        0 <= i < parts[0].len(),
    ensures
        join(parts, d).len() > i,
        join(parts, d)[i] == parts[0][i],
    decreases parts.len(),
{
    if parts.len() > 1 {
        let init = parts.drop_last();
        assert(init[0] == parts[0]);
        lemma_join_head(init, d, i);
        assert(join(parts, d) == join(init, d) + seq![d] + parts.last());
    }
}

/// A split has at least one piece.
pub proof fn lemma_split_nonempty(s: Seq<char>, d: char)
    ensures
        split(s, d).len() >= 1,
    decreases s.len(),
{
    if s.len() > 0 {
        lemma_split_nonempty(s.drop_last(), d);
    }
}

/// Splits `s` at every occurrence of `d`.
pub fn split_on(s: &[char], d: char) -> (r: Vec<Vec<char>>)
    ensures
        views(r@) == split(s@, d),
{
    let mut out: Vec<Vec<char>> = Vec::new();
    let mut cur: Vec<char> = Vec::new();
    let mut i: usize = 0;
    proof {
        assert(s@.subrange(0, 0) =~= Seq::<char>::empty());
    }
    while i < s.len()
        invariant
            0 <= i <= s@.len(),
            views(out@).push(cur@) == split(s@.subrange(0, i as int), d),
        decreases s@.len() - i,
    {
        let c = s[i];
        let ghost pre = s@.subrange(0, i as int);
        proof {
            assert(s@.subrange(0, i + 1).drop_last() =~= pre);
            lemma_split_nonempty(pre, d);
        }
        if c == d {
            out.push(cur);
            cur = Vec::new();
            proof {
                assert(views(out@) =~= split(pre, d));
            }
        } else {
            cur.push(c);
            proof {
                assert(views(out@).push(cur@) =~= split(pre, d).update(
                    split(pre, d).len() - 1,
                    split(pre, d).last().push(c),
                ));
            }
        }
        i = i + 1;
    }
    out.push(cur);
    proof {
        assert(s@.subrange(0, s@.len() as int) =~= s@);
        assert(views(out@) =~= split(s@, d));
    }
    out
}


/// Whether `c` occurs in `s`.
pub fn contains_char(s: &[char], c: char) -> (r: bool)
    ensures
        r == s@.contains(c),
{
    let mut i: usize = 0;
    while i < s.len()
        invariant
            0 <= i <= s@.len(),
            forall|k: int| 0 <= k < i ==> s@[k] != c,
        decreases s@.len() - i,
    {
        if s[i] == c {
            return true;
        }
        i = i + 1;
    }
    false
}

/// Whether two character sequences are equal.
pub fn same_chars(a: &[char], b: &[char]) -> (r: bool)
    ensures
        r == (a@ == b@),
{
    if a.len() != b.len() {
        return false;
    }
    let mut i: usize = 0;
    while i < a.len()
        invariant
            0 <= i <= a@.len(),
            a@.len() == b@.len(),
            forall|k: int| 0 <= k < i ==> a@[k] == b@[k],
        decreases a@.len() - i,
    {
        if a[i] != b[i] {
            return false;
        }
        i = i + 1;
    }
    assert(a@ =~= b@);
    true
}

/// Appends the characters of `s` to `out`.
pub fn push_all(out: &mut Vec<char>, s: &[char])
    ensures
        final(out)@ == old(out)@ + s@,
{
    let mut i: usize = 0;
    while i < s.len()
        invariant
            0 <= i <= s@.len(),
            out@ == old(out)@ + s@.subrange(0, i as int),
        decreases s@.len() - i,
    {
        out.push(s[i]);
        i = i + 1;
        assert(out@ =~= old(out)@ + s@.subrange(0, i as int));
    }
    assert(s@.subrange(0, s@.len() as int) =~= s@);
}

/// Removes the copies of `d` at the end of `v`.
pub fn trim_trailing_in_place(v: &mut Vec<char>, d: char)
    ensures
        final(v)@ == trim_trailing(old(v)@, d),
{
    while v.len() > 0 && v[v.len() - 1] == d
        invariant
            trim_trailing(v@, d) == trim_trailing(old(v)@, d),
        decreases v@.len(),
    {
        let ghost before = v@;
        v.pop();
        assert(v@ =~= before.drop_last());
    }
}

/// `s` with the characters of `pad` removed from both ends.
pub fn clean_token(s: &[char], pad: &[char]) -> (r: Vec<char>)
    ensures
        r@ == clean(s@, pad@),
{
    let mut lo: usize = 0;
    proof {
        assert(s@.subrange(0, s@.len() as int) =~= s@);
    }
    while lo < s.len() && contains_char(pad, s[lo])
        invariant
            0 <= lo <= s@.len(),
            strip_start(s@.subrange(lo as int, s@.len() as int), pad@) == strip_start(s@, pad@),
        decreases s@.len() - lo,
    {
        assert(s@.subrange(lo as int, s@.len() as int).drop_first() =~= s@.subrange(
            lo + 1,
            s@.len() as int,
        ));
        lo = lo + 1;
    }
    let mut hi: usize = s.len();
    assert(strip_start(s@, pad@) == s@.subrange(lo as int, s@.len() as int));
    while hi > lo && contains_char(pad, s[hi - 1])
        invariant
            lo <= hi <= s@.len(),
            strip_end(s@.subrange(lo as int, hi as int), pad@) == clean(s@, pad@),
        decreases hi,
    {
        assert(s@.subrange(lo as int, hi as int).drop_last() =~= s@.subrange(
            lo as int,
            hi - 1,
        ));
        hi = hi - 1;
    }
    let mut r: Vec<char> = Vec::new();
    let mut i: usize = lo;
    while i < hi
        invariant
            lo <= i <= hi <= s@.len(),
            r@ == s@.subrange(lo as int, i as int),
        decreases hi - i,
    {
        r.push(s[i]);
        i = i + 1;
        assert(r@ =~= s@.subrange(lo as int, i as int));
    }
    r
}


/// The pieces joined with `d` between neighbours.
pub fn join_with(parts: &Vec<Vec<char>>, d: char) -> (r: Vec<char>)
    ensures
        r@ == join(views(parts@), d),
{
    let mut out: Vec<char> = Vec::new();
    let mut i: usize = 0;
    while i < parts.len()
        invariant
            0 <= i <= parts@.len(),
            out@ == join(views(parts@).subrange(0, i as int), d),
        decreases parts@.len() - i,
    {
        let ghost pre = views(parts@).subrange(0, i as int);
        if i > 0 {
            out.push(d);
        }
        push_all(&mut out, parts[i].as_slice());
        proof {
            let next = views(parts@).subrange(0, i + 1);
            assert(next.drop_last() =~= pre);
            if i == 0 {
                assert(out@ =~= next[0]);
            } else {
                assert(out@ =~= join(pre, d) + seq![d] + next.last());
            }
        }
        i = i + 1;
    }
    assert(views(parts@).subrange(0, parts@.len() as int) =~= views(parts@));
    out
}

} // verus!
