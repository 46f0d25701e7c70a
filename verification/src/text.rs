//! Splitting and joining character sequences on a separator.
//!
//! The state files nest three separators (newline between lines, `;` between
//! dimensions, `,` and ` ` between numbers), so the codecs are built on one
//! pair of split/join functions and `lemma_split_join`, their round trip.

use vstd::prelude::*;

verus! {

/// The views of a vector of character vectors.
pub open spec fn views_of(parts: Seq<Vec<char>>) -> Seq<Seq<char>> {
    Seq::new(parts.len(), |i: int| parts[i]@)
}

/// Splitting on `sep`; an empty input is one empty piece, and every
/// occurrence of `sep` opens a new piece.
pub open spec fn split_on(s: Seq<char>, sep: char) -> Seq<Seq<char>>
    decreases s.len(),
{
    if s.len() == 0 {
        seq![Seq::<char>::empty()]
    } else {
        let rest = split_on(s.drop_last(), sep);
        if s.last() == sep {
            rest.push(Seq::<char>::empty())
        } else {
            rest.update(rest.len() - 1, rest.last().push(s.last()))
        }
    }
}

/// Joining pieces with `sep` between them.
pub open spec fn join_with(parts: Seq<Seq<char>>, sep: char) -> Seq<char>
    decreases parts.len(),
{
    if parts.len() == 0 {
        Seq::<char>::empty()
    } else if parts.len() == 1 {
        parts[0]
    } else {
        join_with(parts.drop_last(), sep) + seq![sep] + parts.last()
    }
}

pub proof fn lemma_split_len(s: Seq<char>, sep: char)
    ensures
        split_on(s, sep).len() >= 1,
    decreases s.len(),
{
    if s.len() > 0 {
        lemma_split_len(s.drop_last(), sep);
    }
}

/// Appending separator-free text extends the last piece.
proof fn lemma_split_append_nosep(s: Seq<char>, t: Seq<char>, sep: char)
    requires
        !t.contains(sep),
    ensures
        split_on(s + t, sep) == split_on(s, sep).update(
            split_on(s, sep).len() - 1,
            split_on(s, sep).last() + t,
        ),
    decreases t.len(),
{
    lemma_split_len(s, sep);
    if t.len() == 0 {
        assert(s + t =~= s);
        assert(split_on(s, sep).last() + t =~= split_on(s, sep).last());
        assert(split_on(s, sep).update(
            split_on(s, sep).len() - 1,
            split_on(s, sep).last() + t,
        ) =~~= split_on(s, sep));
    } else {
        assert(t.drop_last().len() < t.len());
        assert(!t.drop_last().contains(sep)) by {
            assert(forall|i: int|
                0 <= i < t.drop_last().len() ==> t.drop_last()[i] == t[i] && t[i] != sep);
        }
        lemma_split_append_nosep(s, t.drop_last(), sep);
        let u = s + t;
        assert(u.len() > 0);
        assert(u.drop_last() =~= s + t.drop_last());
        assert(u.last() == t.last());
        assert(t.contains(t.last())) by {
            assert(t[t.len() - 1] == t.last());
        }
        assert(t.last() != sep);
        let prev = split_on(s + t.drop_last(), sep);
        assert(split_on(u, sep) == prev.update(prev.len() - 1, prev.last().push(t.last())));
        assert(prev.last() == split_on(s, sep).last() + t.drop_last());
        assert(prev.last().push(t.last()) =~= split_on(s, sep).last() + t);
        assert(split_on(u, sep) =~~= split_on(s, sep).update(
            split_on(s, sep).len() - 1,
            split_on(s, sep).last() + t,
        ));
    }
}

/// Appending the separator itself opens a fresh empty piece.
proof fn lemma_split_append_sep(s: Seq<char>, sep: char)
    ensures
        split_on(s + seq![sep], sep) == split_on(s, sep).push(Seq::<char>::empty()),
{
    let u = s + seq![sep];
    assert(u.drop_last() =~= s);
    assert(u.last() == sep);
}

/// Round trip: splitting a join recovers the pieces, provided none of them
/// holds the separator.
pub proof fn lemma_split_join(parts: Seq<Seq<char>>, sep: char)
    requires
        parts.len() >= 1,
        forall|i: int| 0 <= i < parts.len() ==> !(#[trigger] parts[i]).contains(sep),
    ensures
        split_on(join_with(parts, sep), sep) == parts,
    decreases parts.len(),
{
    if parts.len() == 1 {
        assert(join_with(parts, sep) == parts[0]);
        assert(Seq::<char>::empty() + parts[0] =~= parts[0]);
        assert(!parts[0].contains(sep));
        lemma_split_append_nosep(Seq::<char>::empty(), parts[0], sep);
        assert(split_on(Seq::<char>::empty(), sep) == seq![Seq::<char>::empty()]);
        assert(split_on(parts[0], sep) =~~= parts);
    } else {
        let dl = parts.drop_last();
        assert(dl.len() >= 1);
        assert(forall|i: int| 0 <= i < dl.len() ==> dl[i] == parts[i]);
        lemma_split_join(dl, sep);
        let a = join_with(dl, sep);
        assert(join_with(parts, sep) == a + seq![sep] + parts.last());
        lemma_split_append_sep(a, sep);
        assert(!parts.last().contains(sep)) by {
            assert(parts[parts.len() - 1] == parts.last());
        }
        lemma_split_append_nosep(a + seq![sep], parts.last(), sep);
        assert((a + seq![sep]) + parts.last() =~= a + seq![sep] + parts.last());
        let mid = split_on(a + seq![sep], sep);
        assert(mid == dl.push(Seq::<char>::empty()));
        assert(mid.last() == Seq::<char>::empty());
        assert(mid.last() + parts.last() =~= parts.last());
        assert(split_on(join_with(parts, sep), sep) =~~= parts);
    }
}

/// A character absent from the separator and every piece is absent from
/// their join.
pub proof fn lemma_join_no_char(parts: Seq<Seq<char>>, sep: char, c: char)
    requires
        c != sep,
        forall|i: int| 0 <= i < parts.len() ==> !(#[trigger] parts[i]).contains(c),
    ensures
        !join_with(parts, sep).contains(c),
    decreases parts.len(),
{
    if parts.len() == 0 {
        assert(!join_with(parts, sep).contains(c)) by {
            if join_with(parts, sep).contains(c) {
                let w = choose|w: int|
                    0 <= w < join_with(parts, sep).len() && join_with(parts, sep)[w] == c;
            }
        }
    } else if parts.len() == 1 {
        assert(join_with(parts, sep) == parts[0]);
    } else {
        let dl = parts.drop_last();
        assert(forall|i: int| 0 <= i < dl.len() ==> dl[i] == parts[i]);
        lemma_join_no_char(dl, sep, c);
        let a = join_with(dl, sep);
        let u = a + seq![sep] + parts.last();
        assert(join_with(parts, sep) == u);
        assert(!parts.last().contains(c)) by {
            assert(parts[parts.len() - 1] == parts.last());
        }
        assert(!u.contains(c)) by {
            if u.contains(c) {
                let w = choose|w: int| 0 <= w < u.len() && u[w] == c;
                if w < a.len() {
                    assert(a[w] == c);
                } else if w > a.len() {
                    assert(parts.last()[w - a.len() - 1] == c);
                }
            }
        }
    }
}

/// Splits `v` on `sep`; there is always at least one piece.
pub fn split_chars(v: &Vec<char>, sep: char) -> (r: Vec<Vec<char>>)
    ensures
        views_of(r@) == split_on(v@, sep),
        r@.len() >= 1,
{
    let mut out: Vec<Vec<char>> = Vec::new();
    let mut cur: Vec<char> = Vec::new();
    let mut i: usize = 0;
    while i < v.len()
        invariant
            i <= v@.len(),
            views_of(out@).push(cur@) == split_on(v@.take(i as int), sep),
        decreases v@.len() - i,
    {
        let ghost prefix = v@.take(i as int);
        assert(v@.take(i + 1).drop_last() =~= prefix);
        assert(v@.take(i + 1).last() == v@[i as int]);
        proof {
            lemma_split_len(prefix, sep);
        }
        let c = v[i];
        if c == sep {
            out.push(cur);
            cur = Vec::new();
            assert(views_of(out@).push(cur@) =~~= split_on(v@.take(i + 1), sep));
        } else {
            cur.push(c);
            assert(views_of(out@).push(cur@) =~~= split_on(v@.take(i + 1), sep));
        }
        i = i + 1;
    }
    assert(v@.take(v@.len() as int) =~= v@);
    out.push(cur);
    assert(views_of(out@) =~~= split_on(v@, sep));
    proof {
        lemma_split_len(v@, sep);
    }
    out
}

/// Joins `parts` with `sep` between them.
pub fn join_chars(parts: &Vec<Vec<char>>, sep: char) -> (r: Vec<char>)
    ensures
        r@ == join_with(views_of(parts@), sep),
{
    let mut out: Vec<char> = Vec::new();
    let mut i: usize = 0;
    while i < parts.len()
        invariant
            i <= parts@.len(),
            out@ == join_with(views_of(parts@).take(i as int), sep),
        decreases parts@.len() - i,
    {
        let ghost pv = views_of(parts@);
        assert(pv.take(i + 1).drop_last() =~= pv.take(i as int));
        assert(pv.take(i + 1).last() == pv[i as int]);
        if i > 0 {
            out.push(sep);
        }
        let mut k: usize = 0;
        let ghost base = out@;
        while k < parts[i].len()
            invariant
                i < parts@.len(),
                k <= parts@[i as int]@.len(),
                out@ == base + parts@[i as int]@.take(k as int),
            decreases parts@[i as int]@.len() - k,
        {
            assert(parts@[i as int]@.take(k + 1) =~= parts@[i as int]@.take(k as int).push(
                parts@[i as int]@[k as int],
            ));
            let c = parts[i][k];
            out.push(c);
            k = k + 1;
        }
        assert(parts@[i as int]@.take(parts@[i as int]@.len() as int) =~= parts@[i as int]@);
        proof {
            if i == 0 {
                assert(pv.take(1).len() == 1);
                assert(out@ =~= join_with(pv.take(1), sep));
            } else {
                assert(out@ =~= join_with(pv.take(i as int), sep) + seq![sep] + pv[i as int]);
            }
        }
        i = i + 1;
    }
    assert(views_of(parts@).take(parts@.len() as int) =~= views_of(parts@));
    out
}

} // verus!
