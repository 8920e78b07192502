//! Splitting text at a separator character, splitting into lines the way
//! `str::lines` does (line feeds end a line, a carriage return before a line
//! feed is dropped, a final unending line is kept, a trailing line feed adds
//! no empty line), and joining lines back with line feeds.

use vstd::prelude::*;

verus! {

/// The views of a sequence of strings.
pub open spec fn views_of(v: Seq<String>) -> Seq<Seq<char>> {
    Seq::new(v.len(), |i: int| v[i]@)
}

/// Pieces of `s` split at every occurrence of `sep`: one more piece than
/// there are separators, in order, each piece free of separators.
pub open spec fn split_char(s: Seq<char>, sep: char) -> Seq<Seq<char>>
    decreases s.len(),
{
    if s.len() == 0 {
        seq![Seq::<char>::empty()]
    } else if s[0] == sep {
        seq![Seq::<char>::empty()] + split_char(s.drop_first(), sep)
    } else {
        let rest = split_char(s.drop_first(), sep);
        seq![seq![s[0]] + rest[0]] + rest.drop_first()
    }
}

/// Splitting yields at least one piece.
pub proof fn lemma_split_char_len(s: Seq<char>, sep: char)
    ensures
        split_char(s, sep).len() >= 1,
    decreases s.len(),
{
    if s.len() > 0 {
        lemma_split_char_len(s.drop_first(), sep);
    }
}

/// A sequence without separators is a single piece.
pub proof fn lemma_split_char_no_sep(s: Seq<char>, sep: char)
    requires
        forall|i: int| 0 <= i < s.len() ==> s[i] != sep,
    ensures
        split_char(s, sep) == seq![s],
    decreases s.len(),
{
    if s.len() == 0 {
        assert(s =~= Seq::<char>::empty());
        assert(split_char(s, sep) =~= seq![s]);
    } else {
        lemma_split_char_no_sep(s.drop_first(), sep);
        assert(seq![s[0]] + s.drop_first() =~= s);
        assert(split_char(s, sep) =~= seq![s]);
    }
}

/// Splitting a concatenation: the last piece of `x` and the first piece of
/// `y` fuse, and every other piece is kept.
pub proof fn lemma_split_char_concat(x: Seq<char>, y: Seq<char>, sep: char)
    ensures
        split_char(x + y, sep) == split_char(x, sep).drop_last() + seq![split_char(x, sep).last()
            + split_char(y, sep)[0]] + split_char(y, sep).drop_first(),
    decreases x.len(),
{
    lemma_split_char_len(x, sep);
    lemma_split_char_len(y, sep);
    let sx = split_char(x, sep);
    let sy = split_char(y, sep);
    if x.len() == 0 {
        assert(x + y =~= y);
        assert(sx =~= seq![Seq::<char>::empty()]);
        assert(Seq::<char>::empty() + sy[0] =~= sy[0]);
        assert(sx.drop_last() + seq![sx.last() + sy[0]] + sy.drop_first() =~= seq![sy[0]]
            + sy.drop_first());
        assert(seq![sy[0]] + sy.drop_first() =~= sy);
    } else if x[0] == sep {
        let xd = x.drop_first();
        lemma_split_char_len(xd, sep);
        lemma_split_char_concat(xd, y, sep);
        assert((x + y).drop_first() =~= xd + y);
        let sxd = split_char(xd, sep);
        assert(sx =~= seq![Seq::<char>::empty()] + sxd);
        assert(sx.last() == sxd.last());
        assert(sx.drop_last() =~= seq![Seq::<char>::empty()] + sxd.drop_last());
        assert(split_char(x + y, sep) =~= seq![Seq::<char>::empty()] + split_char(xd + y, sep));
        assert(split_char(x + y, sep) =~= sx.drop_last() + seq![sx.last() + sy[0]]
            + sy.drop_first());
    } else {
        let xd = x.drop_first();
        lemma_split_char_len(xd, sep);
        lemma_split_char_concat(xd, y, sep);
        assert((x + y).drop_first() =~= xd + y);
        assert((x + y)[0] == x[0]);
        let sxd = split_char(xd, sep);
        let sm = split_char(xd + y, sep);
        assert(sx =~= seq![seq![x[0]] + sxd[0]] + sxd.drop_first());
        assert(split_char(x + y, sep) =~= seq![seq![x[0]] + sm[0]] + sm.drop_first());
        if sxd.len() == 1 {
            assert(sm =~= seq![sxd[0] + sy[0]] + sy.drop_first());
            assert(sm[0] == sxd[0] + sy[0]);
            assert(seq![x[0]] + (sxd[0] + sy[0]) =~= (seq![x[0]] + sxd[0]) + sy[0]);
            assert(sx =~= seq![seq![x[0]] + sxd[0]]);
            assert(sx.drop_last() =~= Seq::<Seq<char>>::empty());
            assert(sx.last() == seq![x[0]] + sxd[0]);
            assert(sm.drop_first() =~= sy.drop_first());
            assert(split_char(x + y, sep) =~= sx.drop_last() + seq![sx.last() + sy[0]]
                + sy.drop_first());
        } else {
            assert(sm[0] == (sxd.drop_last() + seq![sxd.last() + sy[0]] + sy.drop_first())[0]);
            assert(sm[0] == sxd.drop_last()[0]);
            assert(sxd.drop_last()[0] == sxd[0]);
            assert(sx.last() == sxd.drop_first().last());
            assert(sxd.drop_first().last() == sxd.last());
            assert(sm.drop_first() =~= sxd.drop_last().drop_first() + seq![sxd.last() + sy[0]]
                + sy.drop_first());
            assert(sx.drop_last() =~= seq![seq![x[0]] + sxd[0]] + sxd.drop_first().drop_last());
            assert(sxd.drop_first().drop_last() =~= sxd.drop_last().drop_first());
            assert(split_char(x + y, sep) =~= sx.drop_last() + seq![sx.last() + sy[0]]
                + sy.drop_first());
        }
    }
}

/// A separator-free prefix closed by a separator is the first piece.
pub proof fn lemma_split_char_piece(a: Seq<char>, rest: Seq<char>, sep: char)
    requires
        forall|i: int| 0 <= i < a.len() ==> a[i] != sep,
    ensures
        split_char(a + seq![sep] + rest, sep) == seq![a] + split_char(rest, sep),
{
    lemma_split_char_no_sep(a, sep);
    lemma_split_char_concat(a, seq![sep], sep);
    assert(split_char(seq![sep], sep) =~= seq![Seq::<char>::empty(), Seq::<char>::empty()]) by {
        assert(seq![sep].drop_first() =~= Seq::<char>::empty());
        assert(split_char(seq![sep], sep) =~= seq![Seq::<char>::empty()] + split_char(
            Seq::<char>::empty(),
            sep,
        ));
    }
    assert(a + Seq::<char>::empty() =~= a);
    assert(split_char(a + seq![sep], sep) =~= seq![a, Seq::<char>::empty()]);
    lemma_split_char_concat(a + seq![sep], rest, sep);
    lemma_split_char_len(rest, sep);
    assert(Seq::<char>::empty() + split_char(rest, sep)[0] =~= split_char(rest, sep)[0]);
    assert(seq![a, Seq::<char>::empty()].drop_last() =~= seq![a]);
    assert(split_char(a + seq![sep] + rest, sep) =~= seq![a] + split_char(rest, sep));
}

/// No piece of a split contains the separator.
pub proof fn lemma_split_char_pieces_clean(s: Seq<char>, sep: char)
    ensures
        forall|p: int, i: int|
            0 <= p < split_char(s, sep).len() && 0 <= i < split_char(s, sep)[p].len()
                ==> #[trigger] split_char(s, sep)[p][i] != sep,
    decreases s.len(),
{
    if s.len() == 0 {
    } else if s[0] == sep {
        lemma_split_char_pieces_clean(s.drop_first(), sep);
        let ss = split_char(s, sep);
        let sd = split_char(s.drop_first(), sep);
        assert forall|p: int, i: int|
            0 <= p < ss.len() && 0 <= i < ss[p].len() implies #[trigger] ss[p][i] != sep by {
            if p > 0 {
                assert(ss[p] == sd[p - 1]);
            }
        }
    } else {
        lemma_split_char_pieces_clean(s.drop_first(), sep);
        let ss = split_char(s, sep);
        let sd = split_char(s.drop_first(), sep);
        lemma_split_char_len(s.drop_first(), sep);
        assert forall|p: int, i: int|
            0 <= p < ss.len() && 0 <= i < ss[p].len() implies #[trigger] ss[p][i] != sep by {
            if p == 0 {
                assert(ss[0] == seq![s[0]] + sd[0]);
                if i > 0 {
                    assert(ss[0][i] == sd[0][i - 1]);
                }
            } else {
                assert(ss[p] == sd.drop_first()[p - 1]);
                assert(sd.drop_first()[p - 1] == sd[p]);
            }
        }
    }
}

/// Splitting after joining with the separator restores the pieces, plus the
/// empty piece a final separator opens.
pub proof fn lemma_split_of_join(ls: Seq<Seq<char>>)
    requires
        ls.len() > 0,
        forall|p: int, i: int|
            0 <= p < ls.len() && 0 <= i < ls[p].len() ==> #[trigger] ls[p][i] != '\n',
    ensures
        split_char(join_nl(ls) + seq!['\n'], '\n') == ls + seq![Seq::<char>::empty()],
    decreases ls.len(),
{
    if ls.len() == 1 {
        assert(forall|i: int| 0 <= i < ls[0].len() ==> ls[0][i] != '\n');
        lemma_split_char_piece(ls[0], Seq::<char>::empty(), '\n');
        assert(join_nl(ls) + seq!['\n'] =~= ls[0] + seq!['\n'] + Seq::<char>::empty());
        assert(split_char(Seq::<char>::empty(), '\n') =~= seq![Seq::<char>::empty()]);
        assert(split_char(join_nl(ls) + seq!['\n'], '\n') =~= ls + seq![Seq::<char>::empty()]);
    } else {
        let front = ls.drop_last();
        let tl = ls.last();
        assert(forall|p: int, i: int|
            0 <= p < front.len() && 0 <= i < front[p].len() ==> front[p][i] == ls[p][i]);
        lemma_split_of_join(front);
        let x = join_nl(front) + seq!['\n'];
        let y = tl + seq!['\n'];
        assert(join_nl(ls) + seq!['\n'] =~= x + y);
        lemma_split_char_concat(x, y, '\n');
        assert(forall|i: int| 0 <= i < tl.len() ==> tl[i] != '\n');
        lemma_split_char_piece(tl, Seq::<char>::empty(), '\n');
        assert(y =~= tl + seq!['\n'] + Seq::<char>::empty());
        assert(split_char(Seq::<char>::empty(), '\n') =~= seq![Seq::<char>::empty()]);
        assert(split_char(y, '\n') =~= seq![tl, Seq::<char>::empty()]);
        let sx = split_char(x, '\n');
        assert(sx == front + seq![Seq::<char>::empty()]);
        assert(sx.drop_last() =~= front);
        assert(sx.last() == Seq::<char>::empty());
        assert(sx.last() + split_char(y, '\n')[0] =~= tl);
        assert(split_char(y, '\n').drop_first() =~= seq![Seq::<char>::empty()]);
        assert(split_char(x + y, '\n') =~= front + seq![tl] + seq![Seq::<char>::empty()]);
        assert(front + seq![tl] =~= ls);
    }
}

/// Splitting into lines after joining restores clean lines: none may hold a
/// line feed, and none may end in a carriage return.
pub proof fn lemma_lines_of_join(ls: Seq<Seq<char>>)
    requires
        ls.len() > 0,
        forall|p: int, i: int|
            0 <= p < ls.len() && 0 <= i < ls[p].len() ==> #[trigger] ls[p][i] != '\n',
        forall|p: int| 0 <= p < ls.len() ==> strip_cr(#[trigger] ls[p]) == ls[p],
    ensures
        lines_spec(join_nl(ls) + seq!['\n']) == ls,
{
    lemma_split_of_join(ls);
    let ps = ls + seq![Seq::<char>::empty()];
    assert(ps.last().len() == 0);
    assert(ps.drop_last() =~= ls);
    lemma_strip_pieces_index(ls);
    assert(lines_spec(join_nl(ls) + seq!['\n']) =~= ls);
}

/// Splits `s` at every occurrence of `sep`, keeping all pieces.
pub fn split_on_char(s: &str, sep: char) -> (r: Vec<String>)
    ensures
        views_of(r@) == split_char(s@, sep),
{
    let len = s.unicode_len();
    let mut r: Vec<String> = Vec::new();
    let mut start: usize = 0;
    let mut i: usize = 0;
    proof {
        assert(views_of(r@) =~= Seq::<Seq<char>>::empty());
        assert(s@.skip(0) =~= s@);
    }
    while i < len
        invariant
            start <= i <= len,
            len == s@.len(),
            views_of(r@) + split_char(s@.skip(start as int), sep) =~= split_char(s@, sep),
            forall|j: int| start <= j < i ==> s@[j] != sep,
        decreases len - i,
    {
        if s.get_char(i) == sep {
            let piece = s.substring_char(start, i).to_owned();
            proof {
                let a = s@.subrange(start as int, i as int);
                assert(s@.skip(start as int) =~= a + seq![sep] + s@.skip(i + 1));
                lemma_split_char_piece(a, s@.skip(i + 1), sep);
                assert(views_of(r@.push(piece)) =~= views_of(r@).push(a));
                assert(views_of(r@).push(a) + split_char(s@.skip(i + 1), sep) =~= views_of(r@) + (
                seq![a] + split_char(s@.skip(i + 1), sep)));
            }
            r.push(piece);
            start = i + 1;
        }
        i = i + 1;
    }
    let tail = s.substring_char(start, len).to_owned();
    proof {
        let a = s@.subrange(start as int, len as int);
        assert(s@.skip(start as int) =~= a);
        lemma_split_char_no_sep(a, sep);
        assert(views_of(r@.push(tail)) =~= views_of(r@).push(a));
        assert(views_of(r@).push(a) =~= views_of(r@) + seq![a]);
    }
    r.push(tail);
    proof {
        assert(views_of(r@) =~= split_char(s@, sep));
    }
    r
}

/// A piece with a trailing carriage return dropped.
pub open spec fn strip_cr(p: Seq<char>) -> Seq<char> {
    if p.len() > 0 && p.last() == '\r' {
        p.drop_last()
    } else {
        p
    }
}

/// Every piece with its trailing carriage return dropped.
pub open spec fn strip_pieces(ps: Seq<Seq<char>>) -> Seq<Seq<char>>
    decreases ps.len(),
{
    if ps.len() == 0 {
        Seq::empty()
    } else {
        strip_pieces(ps.drop_last()).push(strip_cr(ps.last()))
    }
}

/// Stripping carriage returns is an element-wise map.
pub proof fn lemma_strip_pieces_index(ps: Seq<Seq<char>>)
    ensures
        strip_pieces(ps).len() == ps.len(),
        forall|i: int| 0 <= i < ps.len() ==> strip_pieces(ps)[i] == strip_cr(#[trigger] ps[i]),
    decreases ps.len(),
{
    if ps.len() > 0 {
        lemma_strip_pieces_index(ps.drop_last());
        assert forall|i: int| 0 <= i < ps.len() implies strip_pieces(ps)[i] == strip_cr(
            #[trigger] ps[i],
        ) by {
            if i < ps.len() - 1 {
                assert(strip_pieces(ps)[i] == strip_pieces(ps.drop_last())[i]);
                assert(ps.drop_last()[i] == ps[i]);
            } else {
                assert(strip_pieces(ps)[i] == strip_cr(ps.last()));
            }
        }
    }
}

/// The lines of `s`, as `str::lines` yields them: pieces split at line
/// feeds, each closed piece with a trailing carriage return dropped, and no
/// empty line after a trailing line feed.
pub open spec fn lines_spec(s: Seq<char>) -> Seq<Seq<char>> {
    let ps = split_char(s, '\n');
    if ps.last().len() == 0 {
        strip_pieces(ps.drop_last())
    } else {
        strip_pieces(ps.drop_last()).push(ps.last())
    }
}

/// No line of a text contains a line feed.
pub proof fn lemma_lines_clean(s: Seq<char>)
    ensures
        forall|p: int, i: int|
            0 <= p < lines_spec(s).len() && 0 <= i < lines_spec(s)[p].len()
                ==> #[trigger] lines_spec(s)[p][i] != '\n',
{
    lemma_split_char_pieces_clean(s, '\n');
    lemma_split_char_len(s, '\n');
    let ps = split_char(s, '\n');
    lemma_strip_pieces_index(ps.drop_last());
    let ls = lines_spec(s);
    assert forall|p: int, i: int|
        0 <= p < ls.len() && 0 <= i < ls[p].len() implies #[trigger] ls[p][i] != '\n' by {
        if p < ps.drop_last().len() {
            assert(ls[p] == strip_cr(ps.drop_last()[p]));
            assert(ps.drop_last()[p] == ps[p]);
            assert(ls[p][i] == ps[p][i]);
        } else {
            assert(ls[p] == ps.last());
            assert(ls[p][i] == ps[ps.len() - 1][i]);
        }
    }
}

/// Drops one trailing carriage return, if present.
pub fn strip_cr_str(p: &str) -> (r: &str)
    ensures
        r@ == strip_cr(p@),
{
    let len = p.unicode_len();
    if len > 0 && p.get_char(len - 1) == '\r' {
        proof {
            assert(p@.subrange(0, len - 1) =~= p@.drop_last());
        }
        p.substring_char(0, len - 1)
    } else {
        p
    }
}

/// Splits `s` into lines, as `str::lines` does.
pub fn split_lines(s: &str) -> (r: Vec<String>)
    ensures
        views_of(r@) == lines_spec(s@),
{
    let pieces = split_on_char(s, '\n');
    let n = pieces.len();
    proof {
        lemma_split_char_len(s@, '\n');
    }
    let mut r: Vec<String> = Vec::new();
    let mut i: usize = 0;
    let ghost ps = split_char(s@, '\n');
    proof {
        assert(views_of(r@) =~= strip_pieces(ps.take(0)));
    }
    while i < n - 1
        invariant
            0 <= i <= n - 1,
            n == ps.len() >= 1,
            views_of(pieces@) == ps,
            pieces@.len() == n,
            views_of(r@) =~= strip_pieces(ps.take(i as int)),
        decreases n - 1 - i,
    {
        let piece = strip_cr_str(pieces[i].as_str()).to_owned();
        proof {
            assert(ps.take(i + 1).drop_last() =~= ps.take(i as int));
            assert(ps.take(i + 1).last() == ps[i as int]);
            assert(pieces@[i as int]@ == ps[i as int]);
            assert(views_of(r@.push(piece)) =~= views_of(r@).push(strip_cr(ps[i as int])));
        }
        r.push(piece);
        i = i + 1;
    }
    proof {
        assert(ps.take(n - 1) =~= ps.drop_last());
    }
    let last = &pieces[n - 1];
    if last.as_str().unicode_len() > 0 {
        let kept = last.as_str().to_owned();
        proof {
            assert(pieces@[n - 1]@ == ps.last());
            assert(views_of(r@.push(kept)) =~= views_of(r@).push(ps.last()));
        }
        r.push(kept);
    }
    proof {
        assert(views_of(r@) =~= lines_spec(s@));
    }
    r
}

/// The lines joined with single line feeds, no terminator.
pub open spec fn join_nl(ls: Seq<Seq<char>>) -> Seq<char>
    decreases ls.len(),
{
    if ls.len() == 0 {
        Seq::empty()
    } else if ls.len() == 1 {
        ls[0]
    } else {
        join_nl(ls.drop_last()) + seq!['\n'] + ls.last()
    }
}

/// Joins lines with line feeds and appends one trailing line feed.
pub fn join_lines_nl(ls: &Vec<String>) -> (r: String)
    ensures
        r@ == join_nl(views_of(ls@)) + seq!['\n'],
{
    let mut s = String::new();
    let mut i: usize = 0;
    let ghost vs = views_of(ls@);
    proof {
        assert(s@ =~= join_nl(vs.take(0)));
    }
    while i < ls.len()
        invariant
            0 <= i <= ls.len(),
            vs == views_of(ls@),
            s@ =~= join_nl(vs.take(i as int)),
        decreases ls.len() - i,
    {
        if i > 0 {
            proof {
                reveal_strlit("\n");
            }
            s.append("\n");
        }
        s.append(ls[i].as_str());
        proof {
            assert(vs.take(i + 1).drop_last() =~= vs.take(i as int));
            assert(vs.take(i + 1).last() == ls@[i as int]@);
            if i == 0 {
                assert(join_nl(vs.take(1)) == vs.take(1)[0]);
                assert(s@ =~= join_nl(vs.take(1)));
            } else {
                assert(s@ =~= join_nl(vs.take(i + 1)));
            }
        }
        i = i + 1;
    }
    proof {
        assert(vs.take(ls@.len() as int) =~= vs);
        reveal_strlit("\n");
    }
    s.append("\n");
    s
}

} // verus!
