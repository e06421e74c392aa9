//! Removing a docstring's common indentation and its surrounding blank lines.
use vstd::prelude::*;

use crate::text::{
    blank, chars_of, has_no_newline, indent_len, indent_of, is_blank, join_lines,
    join_lines_chars, lemma_blank_indent, lemma_indent_bounds, lemma_lines_no_newline,
    lemma_lines_of_join, lines_of, slice, split_lines, string_of, strip_cr, trim_start,
    trim_start_chars, views,
};

verus! {

/// The least indentation among the non-blank lines of `ls`, if there is one.
pub open spec fn min_indent(ls: Seq<Seq<char>>) -> Option<nat>
    decreases ls.len(),
{
    if ls.len() == 0 {
        None
    } else {
        let m = min_indent(ls.drop_last());
        let l = ls.last();
        if is_blank(l) {
            m
        } else {
            match m {
                None => Some(indent_of(l)),
                Some(k) => Some(if k <= indent_of(l) { k } else { indent_of(l) }),
            }
        }
    }
}

/// The indentation that every non-blank line of `ls` shares; zero when none is non-blank.
pub open spec fn margin(ls: Seq<Seq<char>>) -> nat {
    match min_indent(ls) {
        Some(k) => k,
        None => 0,
    }
}

/// `l` without its first `m` characters, or unchanged when it is shorter than `m`.
pub open spec fn dedent_line(l: Seq<char>, m: nat) -> Seq<char> {
    if l.len() < m {
        l
    } else {
        l.skip(m as int)
    }
}

pub open spec fn dedent_all(ls: Seq<Seq<char>>, m: nat) -> Seq<Seq<char>> {
    ls.map_values(|l: Seq<char>| dedent_line(l, m))
}

/// How many blank lines open `ls`.
pub open spec fn leading_blanks(ls: Seq<Seq<char>>) -> nat
    decreases ls.len(),
{
    if ls.len() > 0 && is_blank(ls[0]) {
        1 + leading_blanks(ls.drop_first())
    } else {
        0
    }
}

/// How many blank lines close `ls`.
pub open spec fn trailing_blanks(ls: Seq<Seq<char>>) -> nat
    decreases ls.len(),
{
    if ls.len() > 0 && is_blank(ls.last()) {
        1 + trailing_blanks(ls.drop_last())
    } else {
        0
    }
}

/// `ls` without the blank lines at its start and at its end.
pub open spec fn strip_blank_ends(ls: Seq<Seq<char>>) -> Seq<Seq<char>> {
    let a = leading_blanks(ls);
    if a == ls.len() {
        Seq::empty()
    } else {
        ls.subrange(a as int, ls.len() - trailing_blanks(ls))
    }
}

/// The first line left-trimmed, the others stripped of their common margin.
pub open spec fn dedented_lines(ls: Seq<Seq<char>>) -> Seq<Seq<char>> {
    seq![trim_start(ls[0])] + dedent_all(ls.skip(1), margin(ls.skip(1)))
}

/// The lines of the normalized docstring.
pub open spec fn cleaned_lines(s: Seq<char>) -> Seq<Seq<char>> {
    let ls = lines_of(s);
    if ls.len() == 0 {
        Seq::empty()
    } else {
        strip_blank_ends(dedented_lines(ls))
    }
}

/// The normalized docstring.
pub open spec fn cleandoc_text(s: Seq<char>) -> Seq<char> {
    join_lines(cleaned_lines(s))
}

pub proof fn lemma_leading_blanks_is(ls: Seq<Seq<char>>, n: nat)
    requires
        n <= ls.len(),
        forall|j: int| 0 <= j < n ==> is_blank(#[trigger] ls[j]),
        n == ls.len() || !is_blank(ls[n as int]),
    ensures
        leading_blanks(ls) == n,
    decreases n,
{
    if n > 0 {
        let t = ls.drop_first();
        assert forall|j: int| 0 <= j < n - 1 implies is_blank(#[trigger] t[j]) by {
            assert(t[j] == ls[j + 1]);
        }
        if n - 1 < t.len() {
            assert(t[n - 1] == ls[n as int]);
        }
        lemma_leading_blanks_is(t, (n - 1) as nat);
    }
}

pub proof fn lemma_trailing_blanks_is(ls: Seq<Seq<char>>, n: nat)
    requires
        n <= ls.len(),
        forall|j: int| ls.len() - n <= j < ls.len() ==> is_blank(#[trigger] ls[j]),
        n == ls.len() || !is_blank(ls[ls.len() - n - 1]),
    ensures
        trailing_blanks(ls) == n,
    decreases n,
{
    if n > 0 {
        let t = ls.drop_last();
        assert forall|j: int| t.len() - (n - 1) <= j < t.len() implies is_blank(#[trigger] t[j]) by {
            assert(t[j] == ls[j]);
        }
        if n - 1 < t.len() {
            assert(t[t.len() - (n - 1) - 1] == ls[ls.len() - n - 1]);
        }
        lemma_trailing_blanks_is(t, (n - 1) as nat);
    }
}

fn dedent_chars(l: &Vec<char>, m: usize) -> (r: Vec<char>)
    ensures
        r@ == dedent_line(l@, m as nat),
{
    if l.len() < m {
        slice(l, 0, l.len())
    } else {
        slice(l, m, l.len())
    }
}

/// Strips a docstring's common indentation: the first line is left-trimmed on its
/// own, every later line loses the least indentation found among the later non-blank
/// lines, and blank lines at the start and the end are dropped.
pub fn cleandoc(docstring: &str) -> (r: String)
    ensures
        r@ == cleandoc_text(docstring@),
{
    let chars = chars_of(docstring);
    let ls = split_lines(&chars);
    let ghost lv = views(ls@);
    if ls.len() == 0 {
        let e: Vec<Vec<char>> = Vec::new();
        proof {
            assert(views(e@) =~= Seq::<Seq<char>>::empty());
        }
        let j = join_lines_chars(&e);
        return string_of(&j);
    }
    let n = ls.len();
    // least indentation of the non-blank lines after the first
    let mut least: Option<usize> = None;
    let mut i: usize = 1;
    while i < n
        invariant
            1 <= i <= n == ls.len(),
            lv == views(ls@),
            match least {
                None => min_indent(lv.subrange(1, i as int)) is None,
                Some(k) => min_indent(lv.subrange(1, i as int)) == Some(k as nat),
            },
        decreases n - i,
    {
        proof {
            assert(lv.subrange(1, i + 1).drop_last() =~= lv.subrange(1, i as int));
            assert(lv[i as int] == ls@[i as int]@);
        }
        if !blank(&ls[i]) {
            let d = indent_len(&ls[i]);
            least = match least {
                None => Some(d),
                Some(k) => Some(if k <= d { k } else { d }),
            };
        }
        i = i + 1;
    }
    let m: usize = match least {
        None => 0,
        Some(k) => k,
    };
    proof {
        assert(lv.subrange(1, n as int) =~= lv.skip(1));
    }
    let ghost dl = dedented_lines(lv);
    let mut all: Vec<Vec<char>> = Vec::new();
    all.push(trim_start_chars(&ls[0]));
    let mut i: usize = 1;
    while i < n
        invariant
            1 <= i <= n == ls.len(),
            lv == views(ls@),
            m == margin(lv.skip(1)),
            dl == dedented_lines(lv),
            dl.len() == n,
            views(all@) == dl.take(i as int),
        decreases n - i,
    {
        let d = dedent_chars(&ls[i], m);
        let ghost before = views(all@);
        all.push(d);
        proof {
            assert(dl[i as int] == dedent_line(lv[i as int], m as nat));
            assert(views(all@) =~= before.push(d@));
            assert(dl.take(i + 1) =~= dl.take(i as int).push(dl[i as int]));
        }
        i = i + 1;
    }
    proof {
        assert(dl.take(n as int) =~= dl);
    }
    // drop blank lines at both ends
    let mut a: usize = 0;
    while a < n && blank(&all[a])
        invariant
            a <= n == all.len(),
            views(all@) == dl,
            forall|j: int| 0 <= j < a ==> is_blank(#[trigger] dl[j]),
        decreases n - a,
    {
        a = a + 1;
    }
    proof {
        lemma_leading_blanks_is(dl, a as nat);
    }
    let mut kept: Vec<Vec<char>> = Vec::new();
    if a < n {
        let mut b: usize = n;
        while blank(&all[b - 1])
            invariant
                a < b <= n == all.len(),
                views(all@) == dl,
                !is_blank(dl[a as int]),
                forall|j: int| b <= j < n ==> is_blank(#[trigger] dl[j]),
            decreases b,
        {
            b = b - 1;
        }
        proof {
            lemma_trailing_blanks_is(dl, (n - b) as nat);
        }
        let mut k: usize = a;
        while k < b
            invariant
                a <= k <= b <= n == all.len(),
                views(all@) == dl,
                views(kept@) == dl.subrange(a as int, k as int),
            decreases b - k,
        {
            let line = slice(&all[k], 0, all[k].len());
            let ghost before = views(kept@);
            kept.push(line);
            proof {
                assert(all@[k as int]@ =~= all@[k as int]@.subrange(0, all@[k as int].len() as int));
                assert(views(kept@) =~= before.push(dl[k as int]));
                assert(dl.subrange(a as int, k + 1) =~= dl.subrange(a as int, k as int).push(dl[k as int]));
            }
            k = k + 1;
        }
    } else {
        proof {
            assert(views(kept@) =~= Seq::<Seq<char>>::empty());
        }
    }
    let j = join_lines_chars(&kept);
    string_of(&j)
}


proof fn lemma_uniform_min_indent(ms: Seq<Seq<char>>, k: nat)
    requires
        ms.len() > 0,
        forall|i: int| 0 <= i < ms.len() ==> !is_blank(#[trigger] ms[i]) && indent_of(ms[i]) == k,
    ensures
        min_indent(ms) == Some(k),
    decreases ms.len(),
{
    let prev = ms.drop_last();
    assert(!is_blank(ms[ms.len() - 1]) && indent_of(ms[ms.len() - 1]) == k);
    if prev.len() > 0 {
        assert forall|i: int| 0 <= i < prev.len() implies !is_blank(#[trigger] prev[i])
            && indent_of(prev[i]) == k by {
            assert(prev[i] == ms[i]);
        }
        lemma_uniform_min_indent(prev, k);
    }
}

/// When every line after the first is non-blank and indented by exactly `k`, each of
/// them loses exactly `k` characters, and the first line is left-trimmed on its own
/// (and dropped if that leaves it blank).
pub proof fn lemma_uniform_indent_removed(s: Seq<char>, k: nat)
    requires
        lines_of(s).len() > 0,
        forall|i: int|
            1 <= i < lines_of(s).len() ==> !is_blank(#[trigger] lines_of(s)[i]) && indent_of(
                lines_of(s)[i],
            ) == k,
    ensures
        ({
            let ls = lines_of(s);
            let rest = ls.skip(1).map_values(|l: Seq<char>| l.skip(k as int));
            cleaned_lines(s) == if is_blank(trim_start(ls[0])) {
                rest
            } else {
                seq![trim_start(ls[0])] + rest
            }
        }),
{
    let ls = lines_of(s);
    let tail = ls.skip(1);
    let rest = tail.map_values(|l: Seq<char>| l.skip(k as int));
    assert forall|i: int| 0 <= i < tail.len() implies !is_blank(#[trigger] tail[i]) && indent_of(
        tail[i],
    ) == k by {
        assert(tail[i] == ls[i + 1]);
    }
    if tail.len() > 0 {
        lemma_uniform_min_indent(tail, k);
    }
    assert forall|i: int| 0 <= i < tail.len() implies dedent_line(#[trigger] tail[i], margin(tail))
        == tail[i].skip(k as int) && !is_blank(tail[i].skip(k as int)) by {
        lemma_indent_bounds(tail[i]);
        lemma_blank_indent(tail[i]);
        let t = tail[i].skip(k as int);
        assert(t[0] == tail[i][k as int]);
    }
    assert(dedent_all(tail, margin(tail)) =~= rest);
    let d = dedented_lines(ls);
    assert(d == seq![trim_start(ls[0])] + rest);
    assert forall|i: int| 1 <= i < d.len() implies !is_blank(#[trigger] d[i]) by {
        assert(d[i] == rest[i - 1]);
        assert(!is_blank(tail[i - 1].skip(k as int)));
    }
    if is_blank(trim_start(ls[0])) {
        lemma_leading_blanks_is(d, 1);
        if d.len() > 1 {
            lemma_trailing_blanks_is(d, 0);
            assert(d.subrange(1, d.len() as int) =~= rest);
        } else {
            assert(rest =~= Seq::<Seq<char>>::empty());
        }
    } else {
        lemma_leading_blanks_is(d, 0);
        lemma_trailing_blanks_is(d, 0);
        assert(d.subrange(0, d.len() as int) =~= d);
    }
}


proof fn lemma_leading_blanks_bounds(ls: Seq<Seq<char>>)
    ensures
        leading_blanks(ls) <= ls.len(),
        forall|j: int| 0 <= j < leading_blanks(ls) ==> is_blank(#[trigger] ls[j]),
        leading_blanks(ls) == ls.len() || !is_blank(ls[leading_blanks(ls) as int]),
    decreases ls.len(),
{
    if ls.len() > 0 && is_blank(ls[0]) {
        let t = ls.drop_first();
        lemma_leading_blanks_bounds(t);
        assert forall|j: int| 0 <= j < leading_blanks(ls) implies is_blank(#[trigger] ls[j]) by {
            if j > 0 {
                assert(ls[j] == t[j - 1]);
            }
        }
        if leading_blanks(ls) < ls.len() {
            assert(ls[leading_blanks(ls) as int] == t[leading_blanks(t) as int]);
        }
    }
}

proof fn lemma_trailing_blanks_bounds(ls: Seq<Seq<char>>)
    ensures
        trailing_blanks(ls) <= ls.len(),
        forall|j: int| ls.len() - trailing_blanks(ls) <= j < ls.len() ==> is_blank(#[trigger] ls[j]),
        trailing_blanks(ls) == ls.len() || !is_blank(ls[ls.len() - trailing_blanks(ls) - 1]),
    decreases ls.len(),
{
    if ls.len() > 0 && is_blank(ls.last()) {
        let t = ls.drop_last();
        lemma_trailing_blanks_bounds(t);
        assert forall|j: int| ls.len() - trailing_blanks(ls) <= j < ls.len() implies is_blank(
            #[trigger] ls[j],
        ) by {
            if j < ls.len() - 1 {
                assert(ls[j] == t[j]);
            }
        }
        if trailing_blanks(ls) < ls.len() {
            assert(ls[ls.len() - trailing_blanks(ls) - 1] == t[t.len() - trailing_blanks(t) - 1]);
        }
    }
}

/// The normalized lines hold no `'\n'`, and the first and the last are not blank.
proof fn lemma_cleaned_shape(x: Seq<char>)
    ensures
        forall|i: int|
            0 <= i < cleaned_lines(x).len() ==> has_no_newline(#[trigger] cleaned_lines(x)[i]),
        cleaned_lines(x).len() > 0 ==> !is_blank(cleaned_lines(x)[0]) && !is_blank(
            cleaned_lines(x).last(),
        ),
{
    let ls = lines_of(x);
    if ls.len() > 0 {
        lemma_lines_no_newline(x);
        let d = dedented_lines(ls);
        let tail = ls.skip(1);
        assert forall|i: int| 0 <= i < d.len() implies has_no_newline(#[trigger] d[i]) by {
            if i == 0 {
                assert(has_no_newline(ls[0]));
                lemma_indent_bounds(ls[0]);
                let t = trim_start(ls[0]);
                assert forall|j: int| 0 <= j < t.len() implies #[trigger] t[j] != '\n' by {
                    assert(t[j] == ls[0][j + indent_of(ls[0])]);
                }
            } else {
                assert(tail[i - 1] == ls[i]);
                assert(has_no_newline(ls[i]));
                let m = margin(tail);
                let l = ls[i];
                assert(d[i] == dedent_line(l, m));
                if l.len() >= m {
                    let t = l.skip(m as int);
                    assert forall|j: int| 0 <= j < t.len() implies #[trigger] t[j] != '\n' by {
                        assert(t[j] == l[j + m]);
                    }
                }
            }
        }
        lemma_leading_blanks_bounds(d);
        lemma_trailing_blanks_bounds(d);
        let a = leading_blanks(d);
        let r = cleaned_lines(x);
        if a < d.len() {
            let b = d.len() - trailing_blanks(d);
            assert(!is_blank(d[a as int]));
            assert(a < b);
            assert(r == d.subrange(a as int, b));
            assert(r[0] == d[a as int]);
            assert(r.last() == d[b - 1]);
            assert forall|i: int| 0 <= i < r.len() implies has_no_newline(#[trigger] r[i]) by {
                assert(r[i] == d[i + a]);
            }
        }
    }
}

proof fn lemma_min_indent_zero_dedent(ms: Seq<Seq<char>>)
    ensures
        dedent_all(ms, 0) == ms,
{
    assert forall|i: int| 0 <= i < ms.len() implies #[trigger] dedent_all(ms, 0)[i] == ms[i] by {
        assert(ms[i].skip(0) =~= ms[i]);
    }
    assert(dedent_all(ms, 0) =~= ms);
}

/// Normalized lines that normalizing again leaves as they are: the first line opens
/// with no whitespace, a later non-blank line (if there is one) opens with none either,
/// and no line but the last ends in a `'\r'`, which the line split would read as part of
/// a line ending.
pub open spec fn stays_normalized(r: Seq<Seq<char>>) -> bool {
    r.len() > 0 ==> {
        &&& indent_of(r[0]) == 0
        &&& margin(r.skip(1)) == 0
        &&& forall|i: int| 0 <= i < r.len() - 1 ==> strip_cr(#[trigger] r[i]) == r[i]
    }
}

/// Normalizing a normalized text again changes nothing, wherever its lines have the
/// shape that `stays_normalized` describes.
pub proof fn lemma_cleandoc_idempotent(x: Seq<char>)
    requires
        stays_normalized(cleaned_lines(x)),
    ensures
        cleandoc_text(cleandoc_text(x)) == cleandoc_text(x),
{
    let r = cleaned_lines(x);
    lemma_cleaned_shape(x);
    if r.len() == 0 {
        assert(cleandoc_text(x) =~= Seq::<char>::empty());
        lemma_no_lines_of_empty();
    } else {
        lemma_blank_indent(r.last());
        lemma_lines_of_join(r);
        let y = cleandoc_text(x);
        assert(lines_of(y) == r);
        lemma_min_indent_zero_dedent(r.skip(1));
        assert(trim_start(r[0]) =~= r[0]);
        let d = dedented_lines(r);
        assert(d =~= r);
        lemma_leading_blanks_is(r, 0);
        lemma_trailing_blanks_is(r, 0);
        assert(r.subrange(0, r.len() as int) =~= r);
        assert(cleaned_lines(y) == r);
    }
}

proof fn lemma_no_lines_of_empty()
    ensures
        lines_of(Seq::<char>::empty()) == Seq::<Seq<char>>::empty(),
{
    assert(crate::text::pieces(Seq::<char>::empty()) == seq![Seq::<char>::empty()]);
    assert(crate::text::pieces(Seq::<char>::empty()).drop_last() =~= Seq::<Seq<char>>::empty());
    assert(lines_of(Seq::<char>::empty()) =~= Seq::<Seq<char>>::empty());
}

} // verus!
