//! Splitting text into lines and fields, joining them back, and the
//! inverse relationship between the two directions.
use vstd::prelude::*;

verus! {

/// True when delimiter `d` occurs in `s` starting at position `i`.
pub open spec fn match_at(s: Seq<char>, d: Seq<char>, i: int) -> bool {
    0 <= i && i + d.len() <= s.len() && s.subrange(i, i + d.len()) == d
}

/// Position of the leftmost occurrence of `d` in `s`, or -1 when there is none.
pub open spec fn first_match(s: Seq<char>, d: Seq<char>) -> int
    decreases s.len(),
{
    if d.len() == 0 || s.len() < d.len() {
        -1
    } else if s.take(d.len() as int) == d {
        0
    } else {
        let r = first_match(s.skip(1), d);
        if r == -1 {
            -1
        } else {
            r + 1
        }
    }
}

pub proof fn lemma_first_match(s: Seq<char>, d: Seq<char>)
    requires
        d.len() > 0,
    ensures
        first_match(s, d) == -1 ==> forall|i: int| !match_at(s, d, i),
        first_match(s, d) != -1 ==> 0 <= first_match(s, d) && match_at(s, d, first_match(s, d))
            && (forall|i: int| 0 <= i < first_match(s, d) ==> !match_at(s, d, i)),
    decreases s.len(),
{
    if s.len() < d.len() {
        assert(forall|i: int| !match_at(s, d, i));
    } else if s.take(d.len() as int) == d {
        assert(s.subrange(0, d.len() as int) == s.take(d.len() as int));
        assert(match_at(s, d, 0));
    } else {
        let s1 = s.skip(1);
        lemma_first_match(s1, d);
        assert(s.subrange(0, d.len() as int) == s.take(d.len() as int));
        assert(!match_at(s, d, 0));
        assert forall|i: int| 1 <= i && i + d.len() <= s.len() implies (match_at(s, d, i)
            <==> match_at(s1, d, i - 1)) by {
            assert(s.subrange(i, i + d.len()) =~= s1.subrange(i - 1, i - 1 + d.len()));
        }
        let r1 = first_match(s1, d);
        if r1 == -1 {
            assert forall|i: int| !match_at(s, d, i) by {
                if 1 <= i && i + d.len() <= s.len() {
                    assert(!match_at(s1, d, i - 1));
                }
            }
        } else {
            assert(first_match(s, d) == r1 + 1);
            assert(match_at(s1, d, r1));
            assert(match_at(s, d, r1 + 1));
            assert forall|i: int| 0 <= i < r1 + 1 implies !match_at(s, d, i) by {
                if i >= 1 {
                    assert(!match_at(s1, d, i - 1));
                }
            }
        }
    }
}

/// The fields of `s` cut at every occurrence of `d`, scanning left to right.
/// An empty delimiter never cuts: the whole of `s` is the one field.
pub open spec fn split_seq(s: Seq<char>, d: Seq<char>) -> Seq<Seq<char>>
    decreases s.len(),
{
    if d.len() == 0 || s.len() < d.len() {
        seq![s]
    } else if s.take(d.len() as int) == d {
        seq![Seq::<char>::empty()] + split_seq(s.skip(d.len() as int), d)
    } else {
        let rest = split_seq(s.skip(1), d);
        seq![seq![s[0]] + rest[0]] + rest.skip(1)
    }
}

pub proof fn lemma_split_nonempty(s: Seq<char>, d: Seq<char>)
    ensures
        split_seq(s, d).len() >= 1,
    decreases s.len(),
{
    if d.len() == 0 || s.len() < d.len() {
    } else if s.take(d.len() as int) == d {
    } else {
        lemma_split_nonempty(s.skip(1), d);
    }
}

/// `d` glued between consecutive fields restores one piece of text.
pub open spec fn join_seq(parts: Seq<Seq<char>>, d: Seq<char>) -> Seq<char>
    decreases parts.len(),
{
    if parts.len() == 0 {
        Seq::empty()
    } else if parts.len() == 1 {
        parts[0]
    } else {
        parts[0] + d + join_seq(parts.skip(1), d)
    }
}

/// Joining the fields of a split with the same delimiter is the identity.
pub proof fn lemma_join_split(s: Seq<char>, d: Seq<char>)
    ensures
        join_seq(split_seq(s, d), d) == s,
    decreases s.len(),
{
    if d.len() == 0 || s.len() < d.len() {
    } else if s.take(d.len() as int) == d {
        let tail = s.skip(d.len() as int);
        lemma_join_split(tail, d);
        lemma_split_nonempty(tail, d);
        let parts = split_seq(s, d);
        assert(parts == seq![Seq::<char>::empty()] + split_seq(tail, d));
        assert(parts.skip(1) =~= split_seq(tail, d));
        assert(parts[0] == Seq::<char>::empty());
        assert(join_seq(parts, d) == Seq::<char>::empty() + d + tail);
        assert(Seq::<char>::empty() + d + tail =~= s);
    } else {
        let rest = split_seq(s.skip(1), d);
        lemma_join_split(s.skip(1), d);
        lemma_split_nonempty(s.skip(1), d);
        let parts = split_seq(s, d);
        assert(parts == seq![seq![s[0]] + rest[0]] + rest.skip(1));
        assert(parts[0] == seq![s[0]] + rest[0]);
        if rest.len() == 1 {
            assert(join_seq(rest, d) == rest[0]);
            assert(rest.skip(1) =~= Seq::<Seq<char>>::empty());
            assert(parts.len() == 1);
            assert(join_seq(parts, d) == seq![s[0]] + rest[0]);
            assert(seq![s[0]] + s.skip(1) =~= s);
        } else {
            assert(parts.skip(1) =~= rest.skip(1));
            assert(parts.len() == rest.len());
            assert(join_seq(parts, d) == (seq![s[0]] + rest[0]) + d + join_seq(rest.skip(1), d));
            assert(join_seq(rest, d) == rest[0] + d + join_seq(rest.skip(1), d));
            assert(join_seq(rest, d) == s.skip(1));
            assert((seq![s[0]] + rest[0]) + d + join_seq(rest.skip(1), d) =~= seq![s[0]] + (rest[0]
                + d + join_seq(rest.skip(1), d)));
            assert(seq![s[0]] + s.skip(1) =~= s);
        }
    }
}

/// The split, characterised by the leftmost occurrence of the delimiter.
pub proof fn lemma_split_first_match(s: Seq<char>, d: Seq<char>)
    requires
        d.len() > 0,
    ensures
        first_match(s, d) == -1 ==> split_seq(s, d) == seq![s],
        first_match(s, d) != -1 ==> split_seq(s, d) == seq![s.take(first_match(s, d))]
            + split_seq(s.skip(first_match(s, d) + d.len()), d),
    decreases s.len(),
{
    if s.len() < d.len() {
    } else if s.take(d.len() as int) == d {
        assert(first_match(s, d) == 0);
        assert(s.take(0) =~= Seq::<char>::empty());
        assert(seq![s.take(0)] == seq![Seq::<char>::empty()]);
    } else {
        lemma_split_first_match(s.skip(1), d);
        lemma_first_match(s.skip(1), d);
        let r1 = first_match(s.skip(1), d);
        let rest = split_seq(s.skip(1), d);
        if r1 == -1 {
            assert(first_match(s, d) == -1);
            assert(rest == seq![s.skip(1)]);
            assert(rest.skip(1) =~= Seq::<Seq<char>>::empty());
            assert(seq![s[0]] + s.skip(1) =~= s);
            assert(split_seq(s, d) =~= seq![s]);
        } else {
            assert(first_match(s, d) == r1 + 1);
            assert(match_at(s.skip(1), d, r1));
            assert(rest == seq![s.skip(1).take(r1)] + split_seq(s.skip(1).skip(r1 + d.len()), d));
            assert(rest[0] == s.skip(1).take(r1));
            assert(seq![s[0]] + s.skip(1).take(r1) =~= s.take(r1 + 1));
            assert(s.skip(1).skip(r1 + d.len()) =~= s.skip(r1 + 1 + d.len()));
            assert(rest.skip(1) =~= split_seq(s.skip(1).skip(r1 + d.len()), d));
            assert(split_seq(s, d) =~= seq![s.take(r1 + 1)] + split_seq(s.skip(r1 + 1 + d.len()),
                d));
        }
    }
}

/// A line with a final carriage return loses it; any other line is kept whole.
pub open spec fn strip_cr(l: Seq<char>) -> Seq<char> {
    if l.len() > 0 && l[l.len() - 1] == '\r' {
        l.drop_last()
    } else {
        l
    }
}

/// The lines of `text`: fields cut at every line feed, a carriage return
/// directly before a cut dropped, and a final line feed yielding no
/// extra empty line.
pub open spec fn lines_spec(text: Seq<char>) -> Seq<Seq<char>> {
    let parts = split_seq(text, seq!['\n']);
    if parts.len() > 0 && parts.last().len() == 0 {
        parts.drop_last().map_values(|l: Seq<char>| strip_cr(l))
    } else {
        parts.drop_last().map_values(|l: Seq<char>| strip_cr(l)).push(parts.last())
    }
}

/// Every line followed by a line feed.
pub open spec fn unlines(ls: Seq<Seq<char>>) -> Seq<char>
    decreases ls.len(),
{
    if ls.len() == 0 {
        Seq::empty()
    } else {
        ls[0] + seq!['\n'] + unlines(ls.skip(1))
    }
}

/// No line of `text` ends in a carriage return.
pub open spec fn clean_text(s: Seq<char>) -> bool {
    forall|i: int| 0 < i < s.len() && #[trigger] s[i] == '\n' ==> s[i - 1] != '\r'
}

pub proof fn lemma_split_trailing_nl(s: Seq<char>)
    requires
        s.len() > 0,
        s[s.len() - 1] == '\n',
    ensures
        split_seq(s, seq!['\n']).len() >= 2,
        split_seq(s, seq!['\n']).last() == Seq::<char>::empty(),
    decreases s.len(),
{
    let d = seq!['\n'];
    let tail = s.skip(1);
    if s.take(1) == d {
        if tail.len() == 0 {
            assert(split_seq(tail, d) == seq![tail]);
            assert(tail =~= Seq::<char>::empty());
            assert(split_seq(s, d).last() == tail);
        } else {
            assert(tail[tail.len() - 1] == '\n');
            lemma_split_trailing_nl(tail);
            assert(split_seq(s, d) == seq![Seq::<char>::empty()] + split_seq(tail, d));
            assert(split_seq(s, d).last() == split_seq(tail, d).last());
        }
    } else {
        if tail.len() == 0 {
            assert(s.take(1) =~= seq![s[0]]);
            assert(s[0] == '\n');
            assert(s.take(1) =~= d);
            assert(false);
        }
        assert(tail[tail.len() - 1] == '\n');
        lemma_split_trailing_nl(tail);
        let rest = split_seq(tail, d);
        assert(split_seq(s, d) == seq![seq![s[0]] + rest[0]] + rest.skip(1));
        assert(rest.len() >= 2);
        assert(split_seq(s, d).len() == rest.len());
        assert(split_seq(s, d).last() == rest.skip(1).last());
        assert(rest.skip(1).last() == rest.last());
    }
}

pub proof fn lemma_split_parts_no_cr(s: Seq<char>)
    requires
        s.len() > 0,
        s[s.len() - 1] == '\n',
        clean_text(s),
    ensures
        forall|j: int|
            0 <= j < split_seq(s, seq!['\n']).len() ==> #[trigger] strip_cr(
                split_seq(s, seq!['\n'])[j],
            ) == split_seq(s, seq!['\n'])[j],
    decreases s.len(),
{
    let d = seq!['\n'];
    let tail = s.skip(1);
    if tail.len() == 0 {
        assert(s.take(1) =~= seq![s[0]]);
        assert(s[0] == '\n');
        assert(s.take(1) =~= d);
        assert(split_seq(s, d) == seq![Seq::<char>::empty()] + split_seq(tail, d));
        assert(split_seq(tail, d) == seq![tail]);
        assert forall|j: int| 0 <= j < split_seq(s, d).len() implies #[trigger] strip_cr(
            split_seq(s, d)[j],
        ) == split_seq(s, d)[j] by {
            assert(split_seq(s, d)[j].len() == 0);
        }
    } else {
        assert(tail[tail.len() - 1] == '\n');
        assert(clean_text(tail)) by {
            assert forall|i: int| 0 < i < tail.len() && #[trigger] tail[i] == '\n' implies tail[i
                - 1] != '\r' by {
                assert(tail[i] == s[i + 1]);
                assert(tail[i - 1] == s[i]);
            }
        }
        lemma_split_parts_no_cr(tail);
        let rest = split_seq(tail, d);
        if s.take(1) == d {
            assert(split_seq(s, d) == seq![Seq::<char>::empty()] + split_seq(tail, d));
            assert forall|j: int| 0 <= j < split_seq(s, d).len() implies #[trigger] strip_cr(
                split_seq(s, d)[j],
            ) == split_seq(s, d)[j] by {
                if j == 0 {
                    assert(split_seq(s, d)[0].len() == 0);
                } else {
                    assert(split_seq(s, d)[j] == rest[j - 1]);
                    assert(strip_cr(rest[j - 1]) == rest[j - 1]);
                }
            }
        } else {
            assert(split_seq(s, d) == seq![seq![s[0]] + rest[0]] + rest.skip(1));
            let first = seq![s[0]] + rest[0];
            assert(strip_cr(first) == first) by {
                if rest[0].len() > 0 {
                    assert(first[first.len() - 1] == rest[0][rest[0].len() - 1]);
                    assert(strip_cr(rest[0]) == rest[0]);
                } else {
                    // the first field of the tail split is empty only when the
                    // tail starts with a line feed, so `s[1] == '\n'` and the
                    // text being clean rules out a carriage return at `s[0]`
                    assert(first =~= seq![s[0]]);
                    if tail.take(1) == d {
                        assert(tail.take(1)[0] == tail[0]);
                        assert(tail[0] == '\n');
                        assert(s[1] == '\n');
                        assert(s[0] != '\r');
                    } else {
                        if tail.len() < d.len() {
                            assert(false);
                        } else {
                            let rest2 = split_seq(tail.skip(1), d);
                            assert(rest == seq![seq![tail[0]] + rest2[0]] + rest2.skip(1));
                            assert(rest[0] == seq![tail[0]] + rest2[0]);
                            assert(rest[0].len() >= 1);
                            assert(false);
                        }
                    }
                }
            }
            assert forall|j: int| 0 <= j < split_seq(s, d).len() implies #[trigger] strip_cr(
                split_seq(s, d)[j],
            ) == split_seq(s, d)[j] by {
                if j == 0 {
                    assert(split_seq(s, d)[0] == first);
                } else {
                    assert(split_seq(s, d)[j] == rest.skip(1)[j - 1]);
                    assert(rest.skip(1)[j - 1] == rest[j]);
                    assert(strip_cr(rest[j]) == rest[j]);
                }
            }
        }
    }
}

/// Joining with a line feed, against terminating every line with one:
/// the two differ only by the last field.
pub proof fn lemma_join_nl_unlines(parts: Seq<Seq<char>>)
    requires
        parts.len() >= 1,
    ensures
        join_seq(parts, seq!['\n']) == unlines(parts.drop_last()) + parts.last(),
    decreases parts.len(),
{
    if parts.len() == 1 {
        assert(parts.drop_last() =~= Seq::<Seq<char>>::empty());
        assert(Seq::<char>::empty() + parts.last() =~= parts.last());
    } else {
        lemma_join_nl_unlines(parts.skip(1));
        assert(parts.skip(1).drop_last() =~= parts.drop_last().skip(1));
        assert(parts.skip(1).last() == parts.last());
        assert(parts.drop_last()[0] == parts[0]);
        assert(unlines(parts.drop_last()) == parts[0] + seq!['\n'] + unlines(
            parts.drop_last().skip(1),
        ));
        assert(join_seq(parts, seq!['\n']) == parts[0] + seq!['\n'] + (unlines(
            parts.skip(1).drop_last(),
        ) + parts.last()));
        assert(parts[0] + seq!['\n'] + (unlines(parts.skip(1).drop_last()) + parts.last()) =~= (
        parts[0] + seq!['\n'] + unlines(parts.skip(1).drop_last())) + parts.last());
    }
}

/// Writing the lines of `text` back out, each with a final line feed,
/// restores `text`: the inverse direction of line splitting.
pub proof fn lemma_unlines_lines(text: Seq<char>)
    requires
        text.len() > 0,
        text[text.len() - 1] == '\n',
        clean_text(text),
    ensures
        unlines(lines_spec(text)) == text,
{
    let d = seq!['\n'];
    let parts = split_seq(text, d);
    lemma_split_trailing_nl(text);
    lemma_split_parts_no_cr(text);
    lemma_join_split(text, d);
    lemma_join_nl_unlines(parts);
    let ls = lines_spec(text);
    assert(ls =~= parts.drop_last()) by {
        assert forall|j: int| 0 <= j < parts.drop_last().len() implies ls[j]
            == parts.drop_last()[j] by {
            assert(parts.drop_last()[j] == parts[j]);
            assert(strip_cr(parts[j]) == parts[j]);
        }
    }
    assert(unlines(parts.drop_last()) + parts.last() =~= unlines(parts.drop_last()));
}

pub proof fn lemma_unlines_concat(a: Seq<Seq<char>>, b: Seq<Seq<char>>)
    ensures
        unlines(a + b) == unlines(a) + unlines(b),
    decreases a.len(),
{
    if a.len() == 0 {
        assert(a + b =~= b);
        assert(Seq::<char>::empty() + unlines(b) =~= unlines(b));
    } else {
        lemma_unlines_concat(a.skip(1), b);
        assert((a + b).skip(1) =~= a.skip(1) + b);
        assert((a + b)[0] == a[0]);
        assert(a[0] + seq!['\n'] + (unlines(a.skip(1)) + unlines(b)) =~= (a[0] + seq!['\n']
            + unlines(a.skip(1))) + unlines(b));
    }
}

pub proof fn lemma_unlines_push(ls: Seq<Seq<char>>, x: Seq<char>)
    ensures
        unlines(ls.push(x)) == unlines(ls) + x + seq!['\n'],
{
    lemma_unlines_concat(ls, seq![x]);
    assert(ls.push(x) =~= ls + seq![x]);
    assert(unlines(seq![x]) == x + seq!['\n'] + unlines(seq![x].skip(1)));
    assert(seq![x].skip(1) =~= Seq::<Seq<char>>::empty());
    assert(x + seq!['\n'] + Seq::<char>::empty() =~= x + seq!['\n']);
    assert(unlines(ls) + (x + seq!['\n']) =~= unlines(ls) + x + seq!['\n']);
}

pub proof fn lemma_join_push(parts: Seq<Seq<char>>, x: Seq<char>, d: Seq<char>)
    ensures
        join_seq(parts.push(x), d) == if parts.len() == 0 {
            x
        } else {
            join_seq(parts, d) + d + x
        },
    decreases parts.len(),
{
    if parts.len() == 0 {
        assert(parts.push(x).len() == 1);
        assert(parts.push(x)[0] == x);
    } else if parts.len() == 1 {
        assert(parts.push(x).skip(1) =~= seq![x]);
        assert(parts.push(x)[0] == parts[0]);
        assert(join_seq(seq![x], d) == x);
    } else {
        lemma_join_push(parts.skip(1), x, d);
        assert(parts.push(x).skip(1) =~= parts.skip(1).push(x));
        assert(parts.push(x)[0] == parts[0]);
        assert(parts[0] + d + (join_seq(parts.skip(1), d) + d + x) =~= (parts[0] + d + join_seq(
            parts.skip(1),
            d,
        )) + d + x);
    }
}

/// Leftmost occurrence of `d` in `s`, scanning character by character.
pub fn find_first(s: &str, d: &str) -> (r: Option<usize>)
    requires
        d@.len() > 0,
    ensures
        r matches Some(i) ==> first_match(s@, d@) == i as int,
        r is None ==> first_match(s@, d@) == -1,
{
    let n = s.unicode_len();
    let dl = d.unicode_len();
    proof {
        lemma_first_match(s@, d@);
    }
    if dl > n {
        return None;
    }
    let mut i: usize = 0;
    while i <= n - dl
        invariant
            dl <= n,
            dl >= 1,
            n == s@.len(),
            dl == d@.len(),
            i <= n - dl + 1,
            forall|p: int| 0 <= p < i ==> !match_at(s@, d@, p),
        decreases n - dl + 1 - i,
    {
        let mut j: usize = 0;
        let mut ok: bool = true;
        while j < dl
            invariant
                dl <= n,
                n == s@.len(),
                dl == d@.len(),
                i + dl <= n,
                j <= dl,
                ok ==> forall|q: int| 0 <= q < j ==> s@[i + q] == d@[q],
                !ok ==> !match_at(s@, d@, i as int),
                !ok ==> j == dl,
            decreases dl - j,
        {
            if s.get_char(i + j) != d.get_char(j) {
                proof {
                    if match_at(s@, d@, i as int) {
                        assert(s@.subrange(i as int, i + d@.len())[j as int] == s@[i + j]);
                        assert(false);
                    }
                }
                ok = false;
                j = dl;
            } else {
                j = j + 1;
            }
        }
        if ok {
            proof {
                assert(s@.subrange(i as int, i + d@.len()) =~= d@);
                assert(match_at(s@, d@, i as int));
                lemma_first_match(s@, d@);
                let fm = first_match(s@, d@);
                if fm == -1 {
                    assert(false);
                }
                if fm < i {
                    assert(!match_at(s@, d@, fm));
                    assert(false);
                }
                if fm > i {
                    assert(!match_at(s@, d@, i as int));
                    assert(false);
                }
            }
            return Some(i);
        }
        i = i + 1;
    }
    proof {
        assert forall|p: int| !match_at(s@, d@, p) by {
            if 0 <= p && p + d@.len() <= s@.len() {
                assert(p < i);
            }
        }
        let fm = first_match(s@, d@);
        if fm != -1 {
            assert(match_at(s@, d@, fm));
            assert(false);
        }
    }
    None
}

/// Cuts `s` at every occurrence of `d`, left to right.
pub fn split_core(s: &str, d: &str) -> (r: Vec<String>)
    requires
        d@.len() > 0,
    ensures
        r.deep_view() == split_seq(s@, d@),
{
    let mut acc: Vec<String> = Vec::new();
    let mut rest: &str = s;
    let dl = d.unicode_len();
    loop
        invariant
            d@.len() > 0,
            dl == d@.len(),
            split_seq(s@, d@) == acc.deep_view() + split_seq(rest@, d@),
        decreases rest@.len(),
    {
        proof {
            lemma_first_match(rest@, d@);
            lemma_split_first_match(rest@, d@);
        }
        let ghost prev = acc.deep_view();
        match find_first(rest, d) {
            None => {
                acc.push(rest.to_owned());
                proof {
                    assert(split_seq(rest@, d@) == seq![rest@]);
                    assert(acc.deep_view() =~= prev.push(rest@));
                    assert(prev.push(rest@) =~= prev + seq![rest@]);
                    assert(acc.deep_view() =~= split_seq(s@, d@));
                }
                return acc;
            },
            Some(i) => {
                let rlen = rest.unicode_len();
                let ghost old_rest = rest@;
                let piece = rest.substring_char(0, i);
                acc.push(piece.to_owned());
                rest = rest.substring_char(i + dl, rlen);
                proof {
                    assert(piece@ =~= old_rest.take(i as int));
                    assert(rest@ =~= old_rest.skip(i + d@.len()));
                    assert(split_seq(old_rest, d@) == seq![old_rest.take(i as int)] + split_seq(
                        rest@,
                        d@,
                    ));
                    assert(acc.deep_view() =~= prev.push(old_rest.take(i as int)));
                    assert(prev + (seq![old_rest.take(i as int)] + split_seq(rest@, d@)) =~= (prev
                        + seq![old_rest.take(i as int)]) + split_seq(rest@, d@));
                    assert(prev + seq![old_rest.take(i as int)] =~= prev.push(
                        old_rest.take(i as int),
                    ));
                }
            },
        }
    }
}

/// Cuts a line into fields on `d`; with an empty `d` the line is one field.
pub fn split_field(line: &str, d: &str) -> (r: Vec<String>)
    ensures
        r.deep_view() == split_seq(line@, d@),
{
    if d.unicode_len() == 0 {
        let mut v: Vec<String> = Vec::new();
        v.push(line.to_owned());
        proof {
            assert(v.deep_view() =~= seq![line@]);
        }
        v
    } else {
        split_core(line, d)
    }
}

/// The lines of `text`, as `lines_spec` describes them.
pub fn split_lines(text: &str) -> (r: Vec<String>)
    ensures
        r.deep_view() == lines_spec(text@),
{
    let nl: &str = "\n";
    proof {
        reveal_strlit("\n");
        assert(nl@ =~= seq!['\n']);
    }
    let parts = split_core(text, nl);
    proof {
        lemma_split_nonempty(text@, seq!['\n']);
    }
    let n = parts.len();
    let last_empty = parts[n - 1].as_str().is_empty();
    let mut out: Vec<String> = Vec::new();
    let mut i: usize = 0;
    while i < n - 1
        invariant
            n == parts.len(),
            n >= 1,
            i <= n - 1,
            out.deep_view().len() == i,
            forall|j: int|
                0 <= j < i ==> out.deep_view()[j] == strip_cr(parts.deep_view()[j]),
        decreases n - 1 - i,
    {
        let ghost prev = out.deep_view();
        let line = &parts[i];
        let ll = line.as_str().unicode_len();
        if ll > 0 && line.as_str().get_char(ll - 1) == '\r' {
            let stripped = line.as_str().substring_char(0, ll - 1);
            out.push(stripped.to_owned());
            proof {
                assert(stripped@ =~= parts.deep_view()[i as int].drop_last());
                assert(out.deep_view() =~= prev.push(strip_cr(parts.deep_view()[i as int])));
            }
        } else {
            out.push(line.clone());
            proof {
                assert(out.deep_view() =~= prev.push(strip_cr(parts.deep_view()[i as int])));
            }
        }
        i += 1;
    }
    if !last_empty {
        let ghost prev = out.deep_view();
        out.push(parts[n - 1].clone());
        proof {
            assert(out.deep_view() =~= prev.push(parts.deep_view()[n - 1]));
        }
    }
    proof {
        let ps = split_seq(text@, seq!['\n']);
        assert(parts.deep_view() == ps);
        assert(parts.deep_view()[n - 1] == ps.last());
        if last_empty {
            assert(out.deep_view() =~= ps.drop_last().map_values(|l: Seq<char>| strip_cr(l)));
        } else {
            assert(out.deep_view() =~= ps.drop_last().map_values(|l: Seq<char>| strip_cr(l)).push(
                ps.last(),
            ));
        }
    }
    out
}

/// Glues the fields together with `d` between consecutive ones.
pub fn join_with(parts: &Vec<String>, d: &str) -> (r: String)
    ensures
        r@ == join_seq(parts.deep_view(), d@),
{
    let mut out = String::new();
    let mut i: usize = 0;
    while i < parts.len()
        invariant
            i <= parts.len(),
            out@ == join_seq(parts.deep_view().take(i as int), d@),
        decreases parts.len() - i,
    {
        if i > 0 {
            out.append(d);
        }
        out.append(parts[i].as_str());
        proof {
            let pd = parts.deep_view();
            lemma_join_push(pd.take(i as int), pd[i as int], d@);
            assert(pd.take(i as int).push(pd[i as int]) =~= pd.take(i + 1));
            if i == 0 {
                assert(Seq::<char>::empty() + pd[0] =~= pd[0]);
            }
        }
        i += 1;
    }
    proof {
        assert(parts.deep_view().take(parts.len() as int) =~= parts.deep_view());
    }
    out
}

} // verus!
