//! Characters, lines and trimming, stated over `Seq<char>`.
use vstd::prelude::*;

verus! {

/// The characters that `char::is_whitespace` accepts: Unicode's White_Space set.
pub open spec fn is_space(c: char) -> bool {
    ||| ('\t' <= c && c <= '\r')
    ||| c == ' '
    ||| c == '\u{85}'
    ||| c == '\u{a0}'
    ||| c == '\u{1680}'
    ||| ('\u{2000}' <= c && c <= '\u{200a}')
    ||| c == '\u{2028}'
    ||| c == '\u{2029}'
    ||| c == '\u{202f}'
    ||| c == '\u{205f}'
    ||| c == '\u{3000}'
}

/// A line that holds nothing but whitespace (or nothing at all).
pub open spec fn is_blank(s: Seq<char>) -> bool {
    forall|i: int| 0 <= i < s.len() ==> is_space(#[trigger] s[i])
}

/// Length of the run of whitespace that opens `s`.
pub open spec fn indent_of(s: Seq<char>) -> nat
    decreases s.len(),
{
    if s.len() > 0 && is_space(s[0]) {
        1 + indent_of(s.drop_first())
    } else {
        0
    }
}

/// Length of the run of whitespace that closes `s`.
pub open spec fn trailing_space_of(s: Seq<char>) -> nat
    decreases s.len(),
{
    if s.len() > 0 && is_space(s.last()) {
        1 + trailing_space_of(s.drop_last())
    } else {
        0
    }
}

pub open spec fn trim_start(s: Seq<char>) -> Seq<char> {
    s.skip(indent_of(s) as int)
}

pub open spec fn trim_end(s: Seq<char>) -> Seq<char> {
    s.take(s.len() - trailing_space_of(s))
}

pub open spec fn trim(s: Seq<char>) -> Seq<char> {
    trim_end(trim_start(s))
}

pub open spec fn starts_with(s: Seq<char>, p: Seq<char>) -> bool {
    p.len() <= s.len() && s.take(p.len() as int) == p
}

/// The pieces between `'\n'` characters: one more than there are newlines.
pub open spec fn pieces(s: Seq<char>) -> Seq<Seq<char>>
    decreases s.len(),
{
    if s.len() == 0 {
        seq![Seq::empty()]
    } else {
        let p = pieces(s.drop_last());
        if s.last() == '\n' {
            p.push(Seq::empty())
        } else {
            p.update(p.len() - 1, p.last().push(s.last()))
        }
    }
}

/// A line ended by `"\r\n"` loses its `'\r'`.
pub open spec fn strip_cr(l: Seq<char>) -> Seq<char> {
    if l.len() > 0 && l.last() == '\r' {
        l.drop_last()
    } else {
        l
    }
}

/// The lines of `s`, as `str::lines` gives them: split at `'\n'`, a `'\r'` before
/// the `'\n'` dropped, and no empty line after a final line ending.
pub open spec fn lines_of(s: Seq<char>) -> Seq<Seq<char>> {
    let p = pieces(s);
    let ended = p.drop_last().map_values(|l: Seq<char>| strip_cr(l));
    if p.last().len() == 0 {
        ended
    } else {
        ended.push(p.last())
    }
}

/// The lines joined with `sep` between each two.
pub open spec fn join(ls: Seq<Seq<char>>, sep: Seq<char>) -> Seq<char>
    decreases ls.len(),
{
    if ls.len() == 0 {
        Seq::empty()
    } else if ls.len() == 1 {
        ls[0]
    } else {
        join(ls.drop_last(), sep) + sep + ls.last()
    }
}

pub open spec fn join_lines(ls: Seq<Seq<char>>) -> Seq<char> {
    join(ls, seq!['\n'])
}

/// Each element's view, in order.
pub open spec fn views(v: Seq<Vec<char>>) -> Seq<Seq<char>> {
    v.map_values(|x: Vec<char>| x@)
}

/// How many `'\n'` characters `s` holds.
pub open spec fn newline_count(s: Seq<char>) -> nat
    decreases s.len(),
{
    if s.len() == 0 {
        0
    } else {
        newline_count(s.drop_last()) + if s.last() == '\n' {
            1nat
        } else {
            0nat
        }
    }
}

pub open spec fn has_no_newline(l: Seq<char>) -> bool {
    forall|i: int| 0 <= i < l.len() ==> #[trigger] l[i] != '\n'
}

pub proof fn lemma_newline_count_concat(a: Seq<char>, b: Seq<char>)
    ensures
        newline_count(a + b) == newline_count(a) + newline_count(b),
    decreases b.len(),
{
    if b.len() == 0 {
        assert(a + b =~= a);
    } else {
        lemma_newline_count_concat(a, b.drop_last());
        assert((a + b).drop_last() =~= a + b.drop_last());
    }
}

pub proof fn lemma_no_newline_count(l: Seq<char>)
    requires
        has_no_newline(l),
    ensures
        newline_count(l) == 0,
    decreases l.len(),
{
    if l.len() > 0 {
        assert(l.last() == l[l.len() - 1]);
        lemma_no_newline_count(l.drop_last());
    }
}

pub proof fn lemma_pieces_no_newline(s: Seq<char>)
    ensures
        forall|i: int| 0 <= i < pieces(s).len() ==> has_no_newline(#[trigger] pieces(s)[i]),
    decreases s.len(),
{
    if s.len() > 0 {
        lemma_pieces_no_newline(s.drop_last());
        lemma_pieces_nonempty(s.drop_last());
        let p = pieces(s.drop_last());
        if s.last() != '\n' {
            assert(has_no_newline(p.last()));
            assert(has_no_newline(p.last().push(s.last())));
        }
        assert forall|i: int| 0 <= i < pieces(s).len() implies has_no_newline(#[trigger] pieces(s)[i]) by {
            if i < p.len() - 1 || (s.last() == '\n' && i < p.len()) {
                assert(pieces(s)[i] == p[i]);
            }
        }
    }
}

/// No line of `lines_of(s)` holds a `'\n'`.
pub proof fn lemma_lines_no_newline(s: Seq<char>)
    ensures
        forall|i: int| 0 <= i < lines_of(s).len() ==> has_no_newline(#[trigger] lines_of(s)[i]),
{
    lemma_pieces_no_newline(s);
    lemma_pieces_nonempty(s);
    let p = pieces(s);
    assert forall|i: int| 0 <= i < lines_of(s).len() implies has_no_newline(#[trigger] lines_of(s)[i]) by {
        assert(has_no_newline(p[i]));
        if i < p.len() - 1 {
            assert(lines_of(s)[i] == strip_cr(p[i]));
            assert(has_no_newline(strip_cr(p[i])));
        } else {
            assert(lines_of(s)[i] == p.last());
        }
    }
}


pub proof fn lemma_trailing_bounds(s: Seq<char>)
    ensures
        trailing_space_of(s) <= s.len(),
        forall|j: int| s.len() - trailing_space_of(s) <= j < s.len() ==> is_space(#[trigger] s[j]),
        trailing_space_of(s) == s.len() || !is_space(s[s.len() - trailing_space_of(s) - 1]),
    decreases s.len(),
{
    if s.len() > 0 && is_space(s.last()) {
        let t = s.drop_last();
        lemma_trailing_bounds(t);
        assert forall|j: int| s.len() - trailing_space_of(s) <= j < s.len() implies is_space(
            #[trigger] s[j],
        ) by {
            if j < s.len() - 1 {
                assert(s[j] == t[j]);
            }
        }
        if trailing_space_of(s) < s.len() {
            assert(s[s.len() - trailing_space_of(s) - 1] == t[t.len() - trailing_space_of(t) - 1]);
        }
    }
}

pub proof fn lemma_blank_trailing(s: Seq<char>)
    ensures
        is_blank(s) <==> trailing_space_of(s) == s.len(),
{
    lemma_trailing_bounds(s);
    if is_blank(s) {
        lemma_trailing_is(s, s.len());
    }
}

pub proof fn lemma_blank_concat(a: Seq<char>, b: Seq<char>)
    ensures
        is_blank(a + b) <==> is_blank(a) && is_blank(b),
{
    if is_blank(a) && is_blank(b) {
        assert forall|i: int| 0 <= i < (a + b).len() implies is_space(#[trigger] (a + b)[i]) by {
            if i < a.len() {
                assert((a + b)[i] == a[i]);
            } else {
                assert((a + b)[i] == b[i - a.len()]);
            }
        }
    }
    if is_blank(a + b) {
        assert forall|i: int| 0 <= i < a.len() implies is_space(#[trigger] a[i]) by {
            assert((a + b)[i] == a[i]);
        }
        assert forall|i: int| 0 <= i < b.len() implies is_space(#[trigger] b[i]) by {
            assert((a + b)[i + a.len()] == b[i]);
        }
    }
}

pub proof fn lemma_indent_concat(a: Seq<char>, b: Seq<char>)
    ensures
        indent_of(a + b) == if is_blank(a) {
            a.len() + indent_of(b)
        } else {
            indent_of(a)
        },
{
    let s = a + b;
    lemma_indent_bounds(a);
    lemma_indent_bounds(b);
    lemma_blank_indent(a);
    if is_blank(a) {
        let n = a.len() + indent_of(b);
        assert forall|j: int| 0 <= j < n implies is_space(#[trigger] s[j]) by {
            if j < a.len() {
                assert(s[j] == a[j]);
            } else {
                assert(s[j] == b[j - a.len()]);
            }
        }
        if n < s.len() {
            assert(s[n as int] == b[indent_of(b) as int]);
        }
        lemma_indent_is(s, n);
    } else {
        let n = indent_of(a);
        assert forall|j: int| 0 <= j < n implies is_space(#[trigger] s[j]) by {
            assert(s[j] == a[j]);
        }
        assert(s[n as int] == a[n as int]);
        lemma_indent_is(s, n);
    }
}

pub proof fn lemma_trailing_concat(a: Seq<char>, b: Seq<char>)
    ensures
        trailing_space_of(a + b) == if is_blank(b) {
            b.len() + trailing_space_of(a)
        } else {
            trailing_space_of(b)
        },
{
    let s = a + b;
    lemma_trailing_bounds(a);
    lemma_trailing_bounds(b);
    lemma_blank_trailing(b);
    if is_blank(b) {
        let n = b.len() + trailing_space_of(a);
        assert forall|j: int| s.len() - n <= j < s.len() implies is_space(#[trigger] s[j]) by {
            if j < a.len() {
                assert(s[j] == a[j]);
            } else {
                assert(s[j] == b[j - a.len()]);
            }
        }
        if n < s.len() {
            assert(s[s.len() - n - 1] == a[a.len() - trailing_space_of(a) - 1]);
        }
        lemma_trailing_is(s, n);
    } else {
        let n = trailing_space_of(b);
        assert forall|j: int| s.len() - n <= j < s.len() implies is_space(#[trigger] s[j]) by {
            assert(s[j] == b[j - a.len()]);
        }
        assert(s[s.len() - n - 1] == b[b.len() - n - 1]);
        lemma_trailing_is(s, n);
    }
}

/// A text that ends in a character other than whitespace.
pub open spec fn ends_solid(p: Seq<char>) -> bool {
    p.len() > 0 && !is_space(p.last())
}

/// Appending whitespace does not change what trimming gives.
pub proof fn lemma_trim_blank_suffix(z: Seq<char>, w: Seq<char>)
    requires
        is_blank(w),
    ensures
        trim(z + w) == trim(z),
{
    lemma_indent_concat(z, w);
    lemma_blank_concat(z, w);
    lemma_blank_indent(z);
    lemma_blank_indent(z + w);
    lemma_indent_bounds(z);
    if is_blank(z) {
        assert(trim_start(z + w) =~= Seq::<char>::empty());
        assert(trim_start(z) =~= Seq::<char>::empty());
    } else {
        let u = trim_start(z);
        assert(trim_start(z + w) =~= u + w);
        assert(!is_space(u[0]));
        assert(!is_blank(u));
        lemma_trailing_concat(u, w);
        lemma_trailing_bounds(u);
        assert(trim_end(u + w) =~= trim_end(u));
    }
}

/// Trimming twice is trimming once.
pub proof fn lemma_trim_idempotent(x: Seq<char>)
    ensures
        trim(trim(x)) == trim(x),
{
    lemma_indent_bounds(x);
    lemma_blank_indent(x);
    let u = trim_start(x);
    if is_blank(x) {
        assert(u =~= Seq::<char>::empty());
        assert(trim(x) =~= Seq::<char>::empty());
        assert(indent_of(Seq::<char>::empty()) == 0);
        assert(trim(Seq::<char>::empty()) =~= Seq::<char>::empty());
    } else {
        assert(!is_space(u[0]));
        lemma_trailing_bounds(u);
        lemma_blank_trailing(u);
        assert(!is_blank(u));
        let y = trim(x);
        let t = trailing_space_of(u);
        assert(y =~= u.take(u.len() - t));
        assert(y[0] == u[0]);
        assert(y.last() == u[u.len() - t - 1]);
        lemma_indent_is(y, 0);
        lemma_trailing_is(y, 0);
        assert(trim_start(y) =~= y);
        assert(trim_end(y) =~= y);
    }
}

/// Trimming the text so far before adding a line and trimming again gives what trimming
/// everything at once gives, when the text so far is blank or ends in a character other
/// than whitespace, or when the added line is blank.
pub proof fn lemma_trim_then_join(x: Seq<char>, p: Seq<char>)
    requires
        is_blank(x) || ends_solid(x) || is_blank(p),
    ensures
        trim(trim(x) + seq!['\n'] + p) == trim(x + seq!['\n'] + p),
{
    let nl = seq!['\n'];
    assert(is_blank(nl)) by {
        assert(is_space(nl[0]));
    }
    assert(x + nl + p =~= x + (nl + p));
    assert(trim(x) + nl + p =~= trim(x) + (nl + p));
    lemma_indent_bounds(x);
    lemma_blank_indent(x);
    if is_blank(p) {
        lemma_blank_concat(nl, p);
        lemma_trim_blank_suffix(x, nl + p);
        lemma_trim_blank_suffix(trim(x), nl + p);
        lemma_trim_idempotent(x);
    } else if is_blank(x) {
        assert(trim_start(x) =~= Seq::<char>::empty());
        assert(trim(x) =~= Seq::<char>::empty());
        assert(Seq::<char>::empty() + (nl + p) =~= nl + p);
        lemma_indent_bounds(p);
        lemma_indent_concat(nl, p);
        lemma_blank_concat(x, nl);
        lemma_indent_concat(x + nl, p);
        assert(x + nl + p =~= (x + nl) + p);
        assert(trim_start(nl + p) =~= trim_start(p));
        assert(trim_start((x + nl) + p) =~= trim_start(p));
    } else {
        let u = trim_start(x);
        assert(!is_space(u[0]));
        assert(u.last() == x.last());
        lemma_trailing_is(u, 0);
        assert(trim(x) =~= u);
        lemma_indent_concat(x, nl + p);
        assert(!is_blank(u));
        lemma_indent_concat(u, nl + p);
        lemma_indent_is(u, 0);
        assert(trim_start(u + (nl + p)) =~= u + (nl + p));
        assert(trim_start(x + (nl + p)) =~= u + (nl + p));
    }
}


proof fn lemma_pieces_append_plain(a: Seq<char>, b: Seq<char>)
    requires
        has_no_newline(b),
    ensures
        pieces(a + b) == pieces(a).update(pieces(a).len() - 1, pieces(a).last() + b),
    decreases b.len(),
{
    lemma_pieces_nonempty(a);
    if b.len() == 0 {
        assert(a + b =~= a);
        assert(pieces(a).last() + b =~= pieces(a).last());
        assert(pieces(a).update(pieces(a).len() - 1, pieces(a).last()) =~= pieces(a));
    } else {
        let b1 = b.drop_last();
        assert forall|i: int| 0 <= i < b1.len() implies #[trigger] b1[i] != '\n' by {
            assert(b1[i] == b[i]);
        }
        lemma_pieces_append_plain(a, b1);
        assert((a + b).drop_last() =~= a + b1);
        assert((a + b).last() == b[b.len() - 1]);
        let p = pieces(a);
        let q = p.update(p.len() - 1, p.last() + b1);
        assert(q.last() == p.last() + b1);
        assert((p.last() + b1).push(b.last()) =~= p.last() + b);
        assert(q.update(q.len() - 1, q.last().push(b.last())) =~= p.update(
            p.len() - 1,
            p.last() + b,
        ));
    }
}

/// Splitting joined lines at `'\n'` gives the lines back.
pub proof fn lemma_pieces_of_join(r: Seq<Seq<char>>)
    requires
        r.len() > 0,
        forall|i: int| 0 <= i < r.len() ==> has_no_newline(#[trigger] r[i]),
    ensures
        pieces(join_lines(r)) == r,
    decreases r.len(),
{
    let nl = seq!['\n'];
    if r.len() == 1 {
        assert(has_no_newline(r[0]));
        lemma_pieces_append_plain(Seq::empty(), r[0]);
        assert(Seq::<char>::empty() + r[0] =~= r[0]);
        assert(Seq::<char>::empty() + r[0] =~= r[0]);
        assert(pieces(Seq::<char>::empty()).update(0, Seq::<char>::empty() + r[0]) =~= r);
    } else {
        let prev = r.drop_last();
        assert forall|i: int| 0 <= i < prev.len() implies has_no_newline(#[trigger] prev[i]) by {
            assert(prev[i] == r[i]);
        }
        lemma_pieces_of_join(prev);
        let a = join_lines(prev) + nl;
        assert(a.drop_last() =~= join_lines(prev));
        assert(pieces(a) == prev.push(Seq::empty()));
        assert(has_no_newline(r[r.len() - 1]));
        lemma_pieces_append_plain(a, r.last());
        assert(Seq::<char>::empty() + r.last() =~= r.last());
        assert(prev.push(Seq::empty()).update(prev.len() as int, r.last()) =~= r);
    }
}

/// Joined lines split back into the same lines, when none holds a `'\n'`, the last is not
/// empty, and no other ends in a `'\r'` that would read as part of a line ending.
pub proof fn lemma_lines_of_join(r: Seq<Seq<char>>)
    requires
        r.len() > 0,
        forall|i: int| 0 <= i < r.len() ==> has_no_newline(#[trigger] r[i]),
        r.last().len() > 0,
        forall|i: int| 0 <= i < r.len() - 1 ==> strip_cr(#[trigger] r[i]) == r[i],
    ensures
        lines_of(join_lines(r)) == r,
{
    lemma_pieces_of_join(r);
    let p = pieces(join_lines(r));
    assert(p.drop_last().map_values(|l: Seq<char>| strip_cr(l)) =~= r.drop_last());
    assert(r.drop_last().push(r.last()) =~= r);
}

pub proof fn lemma_pieces_nonempty(s: Seq<char>)
    ensures
        pieces(s).len() >= 1,
    decreases s.len(),
{
    if s.len() > 0 {
        lemma_pieces_nonempty(s.drop_last());
    }
}

/// `n` is the indentation when the first `n` characters are whitespace and the next is not.
pub proof fn lemma_indent_is(s: Seq<char>, n: nat)
    requires
        n <= s.len(),
        forall|j: int| 0 <= j < n ==> is_space(#[trigger] s[j]),
        n == s.len() || !is_space(s[n as int]),
    ensures
        indent_of(s) == n,
    decreases n,
{
    if n > 0 {
        let t = s.drop_first();
        assert forall|j: int| 0 <= j < n - 1 implies is_space(#[trigger] t[j]) by {
            assert(t[j] == s[j + 1]);
        }
        if n - 1 < t.len() {
            assert(t[n - 1] == s[n as int]);
        }
        lemma_indent_is(t, (n - 1) as nat);
    }
}

pub proof fn lemma_indent_bounds(s: Seq<char>)
    ensures
        indent_of(s) <= s.len(),
        forall|j: int| 0 <= j < indent_of(s) ==> is_space(#[trigger] s[j]),
        indent_of(s) == s.len() || !is_space(s[indent_of(s) as int]),
    decreases s.len(),
{
    if s.len() > 0 && is_space(s[0]) {
        let t = s.drop_first();
        lemma_indent_bounds(t);
        assert forall|j: int| 0 <= j < indent_of(s) implies is_space(#[trigger] s[j]) by {
            if j > 0 {
                assert(s[j] == t[j - 1]);
            }
        }
        if indent_of(s) < s.len() {
            assert(s[indent_of(s) as int] == t[indent_of(t) as int]);
        }
    }
}

/// `n` is the trailing run when the last `n` characters are whitespace and the one before is not.
pub proof fn lemma_trailing_is(s: Seq<char>, n: nat)
    requires
        n <= s.len(),
        forall|j: int| s.len() - n <= j < s.len() ==> is_space(#[trigger] s[j]),
        n == s.len() || !is_space(s[s.len() - n - 1]),
    ensures
        trailing_space_of(s) == n,
    decreases n,
{
    if n > 0 {
        let t = s.drop_last();
        assert forall|j: int| t.len() - (n - 1) <= j < t.len() implies is_space(#[trigger] t[j]) by {
            assert(t[j] == s[j]);
        }
        if n - 1 < t.len() {
            assert(t[t.len() - (n - 1) - 1] == s[s.len() - n - 1]);
        }
        lemma_trailing_is(t, (n - 1) as nat);
    }
}

pub proof fn lemma_blank_indent(s: Seq<char>)
    ensures
        is_blank(s) <==> indent_of(s) == s.len(),
{
    lemma_indent_bounds(s);
    if is_blank(s) {
        lemma_indent_is(s, s.len());
    }
}

pub fn is_space_char(c: char) -> (r: bool)
    ensures
        r == is_space(c),
{
    ('\t' <= c && c <= '\r') || c == ' ' || c == '\u{85}' || c == '\u{a0}' || c == '\u{1680}'
        || ('\u{2000}' <= c && c <= '\u{200a}') || c == '\u{2028}' || c == '\u{2029}'
        || c == '\u{202f}' || c == '\u{205f}' || c == '\u{3000}'
}

/// The characters of a string slice, in order.
pub fn chars_of(s: &str) -> (r: Vec<char>)
    ensures
        r@ == s@,
{
    let mut r: Vec<char> = Vec::new();
    for c in it: s.chars()
        invariant
            r@ == it.seq().take(it.index() as int),
    {
        r.push(c);
    }
    r
}

/// Relies on `String`'s `FromIterator<&char>`: the string holds the characters in order.
#[verifier::external_body]
pub(crate) fn string_of(v: &Vec<char>) -> (r: String)
    ensures
        r@ == v@,
{
    v.iter().collect()
}

pub fn indent_len(s: &Vec<char>) -> (r: usize)
    ensures
        r == indent_of(s@),
{
    let mut i: usize = 0;
    while i < s.len() && is_space_char(s[i])
        invariant
            i <= s.len(),
            forall|j: int| 0 <= j < i ==> is_space(#[trigger] s@[j]),
        decreases s.len() - i,
    {
        i = i + 1;
    }
    proof {
        lemma_indent_is(s@, i as nat);
    }
    i
}

pub fn blank(s: &Vec<char>) -> (r: bool)
    ensures
        r == is_blank(s@),
{
    let n = indent_len(s);
    proof {
        lemma_blank_indent(s@);
    }
    n == s.len()
}

/// The characters of `s` from `from` to `to`.
pub fn slice(s: &Vec<char>, from: usize, to: usize) -> (r: Vec<char>)
    requires
        from <= to <= s.len(),
    ensures
        r@ == s@.subrange(from as int, to as int),
{
    let mut r: Vec<char> = Vec::new();
    let mut i: usize = from;
    while i < to
        invariant
            from <= i <= to <= s.len(),
            r@ == s@.subrange(from as int, i as int),
        decreases to - i,
    {
        r.push(s[i]);
        i = i + 1;
    }
    r
}

pub fn trim_start_chars(s: &Vec<char>) -> (r: Vec<char>)
    ensures
        r@ == trim_start(s@),
{
    let n = indent_len(s);
    proof {
        lemma_indent_bounds(s@);
    }
    slice(s, n, s.len())
}

pub fn trim_chars(s: &Vec<char>) -> (r: Vec<char>)
    ensures
        r@ == trim(s@),
{
    let t = trim_start_chars(s);
    let mut e: usize = t.len();
    while e > 0 && is_space_char(t[e - 1])
        invariant
            e <= t.len(),
            forall|j: int| e <= j < t.len() ==> is_space(#[trigger] t@[j]),
        decreases e,
    {
        e = e - 1;
    }
    proof {
        lemma_trailing_is(t@, (t.len() - e) as nat);
    }
    slice(&t, 0, e)
}

pub fn starts_with_chars(s: &Vec<char>, p: &str) -> (r: bool)
    ensures
        r == starts_with(s@, p@),
{
    let pc = chars_of(p);
    if pc.len() > s.len() {
        return false;
    }
    let mut i: usize = 0;
    while i < pc.len()
        invariant
            pc.len() <= s.len(),
            i <= pc.len(),
            pc@ == p@,
            s@.take(i as int) == pc@.take(i as int),
        decreases pc.len() - i,
    {
        if s[i] != pc[i] {
            assert(s@.take(pc.len() as int)[i as int] != pc@[i as int]);
            return false;
        }
        assert(s@.take(i + 1) =~= s@.take(i as int).push(s@[i as int]));
        assert(pc@.take(i + 1) =~= pc@.take(i as int).push(pc@[i as int]));
        i = i + 1;
    }
    assert(pc@.take(pc.len() as int) =~= pc@);
    true
}

/// Whether the two strings hold the same characters.
pub fn same_text(a: &str, b: &str) -> (r: bool)
    ensures
        r == (a@ == b@),
{
    let x = chars_of(a);
    let y = chars_of(b);
    if x.len() != y.len() {
        return false;
    }
    let mut i: usize = 0;
    while i < x.len()
        invariant
            x.len() == y.len(),
            i <= x.len(),
            x@ == a@,
            y@ == b@,
            forall|j: int| 0 <= j < i ==> x@[j] == y@[j],
        decreases x.len() - i,
    {
        if x[i] != y[i] {
            return false;
        }
        i = i + 1;
    }
    assert(x@ =~= y@);
    true
}

/// Appends the characters of `t` to `s`.
pub fn append_chars(s: &mut Vec<char>, t: &Vec<char>)
    ensures
        final(s)@ == old(s)@ + t@,
{
    let mut i: usize = 0;
    while i < t.len()
        invariant
            i <= t.len(),
            s@ == old(s)@ + t@.take(i as int),
        decreases t.len() - i,
    {
        s.push(t[i]);
        assert(t@.take(i + 1) =~= t@.take(i as int).push(t@[i as int]));
        i = i + 1;
    }
    assert(t@.take(t.len() as int) =~= t@);
}

/// The lines of `s`, as `str::lines` gives them.
pub fn split_lines(s: &Vec<char>) -> (r: Vec<Vec<char>>)
    ensures
        views(r@) == lines_of(s@),
{
    let mut out: Vec<Vec<char>> = Vec::new();
    let mut cur: Vec<char> = Vec::new();
    let mut i: usize = 0;
    proof {
        assert(s@.take(0) =~= Seq::<char>::empty());
        assert(views(out@) =~= pieces(s@.take(0)).drop_last().map_values(|l: Seq<char>| strip_cr(l)));
    }
    while i < s.len()
        invariant
            i <= s.len(),
            pieces(s@.take(i as int)).len() >= 1,
            views(out@) == pieces(s@.take(i as int)).drop_last().map_values(|l: Seq<char>| strip_cr(l)),
            cur@ == pieces(s@.take(i as int)).last(),
        decreases s.len() - i,
    {
        let ghost pre = s@.take(i as int);
        let ghost next = s@.take(i + 1);
        proof {
            assert(next.drop_last() =~= pre);
            assert(next.last() == s@[i as int]);
            lemma_pieces_nonempty(pre);
        }
        let c = s[i];
        if c == '\n' {
            let ended = if cur.len() > 0 && cur[cur.len() - 1] == '\r' {
                slice(&cur, 0, cur.len() - 1)
            } else {
                slice(&cur, 0, cur.len())
            };
            proof {
                if cur.len() > 0 {
                    assert(cur@.drop_last() =~= cur@.subrange(0, cur.len() - 1));
                }
                assert(cur@ =~= cur@.subrange(0, cur.len() as int));
                assert(ended@ == strip_cr(cur@));
                assert(pieces(next) == pieces(pre).push(Seq::empty()));
                assert(pieces(next).drop_last() =~= pieces(pre));
                assert(pieces(pre) =~= pieces(pre).drop_last().push(pieces(pre).last()));
            }
            let ghost before = views(out@);
            out.push(ended);
            cur = Vec::new();
            proof {
                let pp = pieces(pre);
                assert(views(out@) =~= before.push(ended@));
                assert(pp.map_values(|l: Seq<char>| strip_cr(l)) =~= pp.drop_last().map_values(
                    |l: Seq<char>| strip_cr(l),
                ).push(strip_cr(pp.last())));
                assert(views(out@) =~= pieces(next).drop_last().map_values(|l: Seq<char>| strip_cr(l)));
                assert(cur@ =~= pieces(next).last());
            }
        } else {
            cur.push(c);
            proof {
                assert(pieces(next).drop_last() =~= pieces(pre).drop_last());
            }
        }
        i = i + 1;
    }
    proof {
        assert(s@.take(s.len() as int) =~= s@);
    }
    if cur.len() > 0 {
        out.push(cur);
        proof {
            assert(views(out@) =~= lines_of(s@));
        }
    }
    out
}

/// Copies of the lines of `ls` from `from` to `to`.
pub fn copy_lines(ls: &Vec<Vec<char>>, from: usize, to: usize) -> (r: Vec<Vec<char>>)
    requires
        from <= to <= ls.len(),
    ensures
        views(r@) == views(ls@).subrange(from as int, to as int),
{
    let mut r: Vec<Vec<char>> = Vec::new();
    let mut i: usize = from;
    while i < to
        invariant
            from <= i <= to <= ls.len(),
            views(r@) == views(ls@).subrange(from as int, i as int),
        decreases to - i,
    {
        let line = slice(&ls[i], 0, ls[i].len());
        let ghost before = views(r@);
        r.push(line);
        proof {
            assert(ls@[i as int]@ =~= ls@[i as int]@.subrange(0, ls@[i as int].len() as int));
            assert(views(r@) =~= before.push(views(ls@)[i as int]));
            assert(views(ls@).subrange(from as int, i + 1) =~= views(ls@).subrange(from as int, i as int).push(
                views(ls@)[i as int],
            ));
        }
        i = i + 1;
    }
    r
}

/// The lines joined with `'\n'` between each two.
pub fn join_lines_chars(ls: &Vec<Vec<char>>) -> (r: Vec<char>)
    ensures
        r@ == join_lines(views(ls@)),
{
    join_chars(ls, '\n')
}

/// The lines joined with `sep` between each two.
pub fn join_chars(ls: &Vec<Vec<char>>, sep: char) -> (r: Vec<char>)
    ensures
        r@ == join(views(ls@), seq![sep]),
{
    let mut r: Vec<char> = Vec::new();
    let mut i: usize = 0;
    while i < ls.len()
        invariant
            i <= ls.len(),
            r@ == join(views(ls@).take(i as int), seq![sep]),
        decreases ls.len() - i,
    {
        let ghost pre = views(ls@).take(i as int);
        let ghost next = views(ls@).take(i + 1);
        proof {
            assert(next.drop_last() =~= pre);
        }
        if i > 0 {
            r.push(sep);
        }
        append_chars(&mut r, &ls[i]);
        proof {
            if i == 0 {
                assert(r@ =~= next[0]);
            } else {
                assert(r@ =~= join(pre, seq![sep]) + seq![sep] + next.last());
            }
        }
        i = i + 1;
    }
    proof {
        assert(views(ls@).take(ls.len() as int) =~= views(ls@));
    }
    r
}

} // verus!
