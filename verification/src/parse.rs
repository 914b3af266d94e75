//! Reading the DIMACS clause format: comment lines, one declaration line,
//! then one clause per line, each a run of integer literals closed by a
//! zero sentinel.
use vstd::prelude::*;

use crate::formula::Formula;
use vstd::string::StrSliceExecFns;

verus! {

/// The characters the reader treats as blank space inside a line.
pub open spec fn is_space(c: char) -> bool {
    c == ' ' || c == '\t' || c == '\n' || c == '\r' || c == '\u{b}' || c == '\u{c}'
}

/// The first line break at or after `from`; the text's length if none.
pub open spec fn find_newline(s: Seq<char>, from: int) -> int
    recommends
        0 <= from <= s.len(),
    decreases s.len() - from,
{
    if from < 0 || from >= s.len() {
        s.len() as int
    } else if s[from] == '\n' {
        from
    } else {
        find_newline(s, from + 1)
    }
}

pub proof fn lemma_find_newline(s: Seq<char>, from: int)
    requires
        0 <= from <= s.len(),
    ensures
        from <= find_newline(s, from) <= s.len(),
        find_newline(s, from) < s.len() ==> s[find_newline(s, from)] == '\n',
        forall|j: int| from <= j < find_newline(s, from) ==> s[j] != '\n',
    decreases s.len() - from,
{
    if from < s.len() && s[from] != '\n' {
        lemma_find_newline(s, from + 1);
    }
}

pub proof fn lemma_find_newline_shift(s: Seq<char>, p: int, from: int)
    requires
        0 <= p <= s.len(),
        p <= from <= s.len(),
    ensures
        find_newline(s.skip(p), from - p) == find_newline(s, from) - p,
    decreases s.len() - from,
{
    if from < s.len() {
        assert(s.skip(p)[from - p] == s[from]);
        if s[from] != '\n' {
            lemma_find_newline_shift(s, p, from + 1);
        }
    }
}

/// A line with one trailing carriage return, if any, taken off.
pub open spec fn strip_cr(l: Seq<char>) -> Seq<char> {
    if l.len() > 0 && l[l.len() - 1] == '\r' {
        l.drop_last()
    } else {
        l
    }
}

/// The text split at line breaks, as the lines iterator of `str` splits it.
pub open spec fn lines_of(s: Seq<char>) -> Seq<Seq<char>>
    decreases s.len(),
{
    if s.len() == 0 {
        Seq::empty()
    } else {
        let i = find_newline(s, 0);
        if i >= s.len() {
            seq![strip_cr(s)]
        } else {
            proof {
                lemma_find_newline(s, 0);
            }
            seq![strip_cr(s.take(i))] + lines_of(s.skip(i + 1))
        }
    }
}

/// One step of the line split, at any position in the text.
pub proof fn lemma_lines_step(s: Seq<char>, p: int)
    requires
        0 <= p < s.len(),
    ensures
        lines_of(s.skip(p)) == if find_newline(s, p) >= s.len() {
            seq![strip_cr(s.skip(p))]
        } else {
            seq![strip_cr(s.subrange(p, find_newline(s, p)))] + lines_of(
                s.skip(find_newline(s, p) + 1),
            )
        },
{
    let rest = s.skip(p);
    let i = find_newline(s, p);
    lemma_find_newline(s, p);
    lemma_find_newline_shift(s, p, p);
    assert(find_newline(rest, 0) == i - p);
    assert(rest.len() == s.len() - p);
    if i >= s.len() {
        assert(lines_of(rest) == seq![strip_cr(rest)]);
    } else {
        assert(rest.take(i - p) =~= s.subrange(p, i));
        assert(rest.skip(i - p + 1) =~= s.skip(i + 1));
    }
}

pub open spec fn is_comment(l: Seq<char>) -> bool {
    l.len() > 0 && l[0] == 'c'
}

/// Lines at the head that begin with the comment marker are dropped.
pub open spec fn skip_comments(ls: Seq<Seq<char>>) -> Seq<Seq<char>>
    decreases ls.len(),
{
    if ls.len() > 0 && is_comment(ls[0]) {
        skip_comments(ls.drop_first())
    } else {
        ls
    }
}

pub proof fn lemma_skip_comments(ls: Seq<Seq<char>>, k: int)
    requires
        0 <= k <= ls.len(),
        forall|j: int| 0 <= j < k ==> is_comment(#[trigger] ls[j]),
        k == ls.len() || !is_comment(ls[k]),
    ensures
        skip_comments(ls) == ls.skip(k),
    decreases k,
{
    if k == 0 {
        assert(ls.skip(0) =~= ls);
        if ls.len() > 0 {
            assert(!is_comment(ls[0]));
        }
    } else {
        assert(is_comment(ls[0]));
        let tail = ls.drop_first();
        assert forall|j: int| 0 <= j < k - 1 implies is_comment(#[trigger] tail[j]) by {
            assert(tail[j] == ls[j + 1]);
        }
        if k - 1 < tail.len() {
            assert(tail[k - 1] == ls[k]);
        }
        lemma_skip_comments(tail, k - 1);
        assert(tail.skip(k - 1) =~= ls.skip(k));
    }
}

/// The first blank at or after `from`; the line's length if none.
pub open spec fn token_end(l: Seq<char>, from: int) -> int
    recommends
        0 <= from <= l.len(),
    decreases l.len() - from,
{
    if from < 0 || from >= l.len() {
        l.len() as int
    } else if is_space(l[from]) {
        from
    } else {
        token_end(l, from + 1)
    }
}

pub proof fn lemma_token_end(l: Seq<char>, from: int)
    requires
        0 <= from <= l.len(),
    ensures
        from <= token_end(l, from) <= l.len(),
        token_end(l, from) < l.len() ==> is_space(l[token_end(l, from)]),
        forall|j: int| from <= j < token_end(l, from) ==> !is_space(l[j]),
        from < l.len() && !is_space(l[from]) ==> token_end(l, from) > from,
    decreases l.len() - from,
{
    if from < l.len() && !is_space(l[from]) {
        lemma_token_end(l, from + 1);
    }
}

pub open spec fn is_digit(c: char) -> bool {
    48 <= c as u32 <= 57
}

pub open spec fn digit_val(c: char) -> int {
    c as u32 - 48
}

/// The decimal value of the digits `t` appended to the accumulator `a`.
pub open spec fn digits_val(t: Seq<char>, a: int) -> int
    decreases t.len(),
{
    if t.len() == 0 {
        a
    } else {
        digits_val(t.drop_first(), a * 10 + digit_val(t[0]))
    }
}

pub open spec fn all_digits(t: Seq<char>) -> bool {
    t.len() > 0 && forall|i: int| 0 <= i < t.len() ==> is_digit(#[trigger] t[i])
}

/// The integer a token denotes: an optional sign, then decimal digits.
pub open spec fn int_of_token(t: Seq<char>) -> Option<int> {
    if t.len() == 0 {
        None
    } else if t[0] == '+' {
        if all_digits(t.drop_first()) {
            Some(digits_val(t.drop_first(), 0))
        } else {
            None
        }
    } else if t[0] == '-' {
        if all_digits(t.drop_first()) {
            Some(-digits_val(t.drop_first(), 0))
        } else {
            None
        }
    } else if all_digits(t) {
        Some(digits_val(t, 0))
    } else {
        None
    }
}

/// What parsing a token as a machine integer yields: its value, if the
/// token is well formed and the value representable.
pub open spec fn token_lit(t: Seq<char>) -> Option<isize> {
    match int_of_token(t) {
        Some(n) => if isize::MIN <= n <= isize::MAX {
            Some(n as isize)
        } else {
            None
        },
        None => None,
    }
}

pub proof fn lemma_digits_push(t: Seq<char>, c: char, a: int)
    ensures
        digits_val(t.push(c), a) == digits_val(t, a) * 10 + digit_val(c),
    decreases t.len(),
{
    if t.len() == 0 {
        assert(t.push(c)[0] == c);
        assert(t.push(c).drop_first() =~= Seq::<char>::empty());
        assert(digits_val(Seq::<char>::empty(), a * 10 + digit_val(c)) == a * 10 + digit_val(c));
    } else {
        assert(t.push(c)[0] == t[0]);
        assert(t.push(c).drop_first() =~= t.drop_first().push(c));
        lemma_digits_push(t.drop_first(), c, a * 10 + digit_val(t[0]));
    }
}

pub proof fn lemma_digits_mono(t: Seq<char>, a: int)
    requires
        a >= 0,
        forall|i: int| 0 <= i < t.len() ==> is_digit(#[trigger] t[i]),
    ensures
        digits_val(t, a) >= a,
    decreases t.len(),
{
    if t.len() > 0 {
        assert(is_digit(t[0]));
        assert forall|i: int| 0 <= i < t.drop_first().len() implies is_digit(
            #[trigger] t.drop_first()[i],
        ) by {
            assert(t.drop_first()[i] == t[i + 1]);
        }
        lemma_digits_mono(t.drop_first(), a * 10 + digit_val(t[0]));
    }
}

/// The clause read from position `from` on: blanks skipped, tokens taken
/// and parsed until the zero sentinel or the line's end; nothing if a token
/// before the sentinel is no representable integer.
pub open spec fn clause_from(l: Seq<char>, from: int) -> Option<Seq<isize>>
    recommends
        0 <= from <= l.len(),
    decreases l.len() - from,
{
    if from < 0 || from >= l.len() {
        Some(Seq::empty())
    } else if is_space(l[from]) {
        clause_from(l, from + 1)
    } else {
        let e = token_end(l, from);
        let t = l.subrange(from, e);
        if t == seq!['0'] {
            Some(Seq::empty())
        } else {
            match token_lit(t) {
                None => None,
                Some(x) => {
                    proof {
                        lemma_token_end(l, from);
                    }
                    match clause_from(l, e) {
                        None => None,
                        Some(rest) => Some(seq![x] + rest),
                    }
                },
            }
        }
    }
}

/// The clause a whole line denotes.
pub open spec fn line_clause(l: Seq<char>) -> Option<Seq<isize>> {
    clause_from(l, 0)
}

/// The clauses of the data lines, or nothing at the first line that fails.
pub open spec fn clauses_of_lines(ls: Seq<Seq<char>>) -> Option<Seq<Seq<isize>>>
    decreases ls.len(),
{
    if ls.len() == 0 {
        Some(Seq::empty())
    } else {
        match line_clause(ls[0]) {
            None => None,
            Some(c) => match clauses_of_lines(ls.drop_first()) {
                None => None,
                Some(r) => Some(seq![c] + r),
            },
        }
    }
}

pub proof fn lemma_clauses_of_lines(ls: Seq<Seq<char>>)
    ensures
        (clauses_of_lines(ls) is Some) <==> (forall|j: int|
            0 <= j < ls.len() ==> line_clause(#[trigger] ls[j]) is Some),
        clauses_of_lines(ls) is Some ==> (clauses_of_lines(ls)->Some_0).len() == ls.len()
            && forall|j: int|
            0 <= j < ls.len() ==> (clauses_of_lines(ls)->Some_0)[j] == line_clause(
                #[trigger] ls[j],
            )->Some_0,
    decreases ls.len(),
{
    if ls.len() > 0 {
        let tail = ls.drop_first();
        lemma_clauses_of_lines(tail);
        assert(forall|j: int| 0 <= j < tail.len() ==> #[trigger] tail[j] == ls[j + 1]);
        if clauses_of_lines(ls) is Some {
            assert(clauses_of_lines(tail) is Some);
            assert forall|j: int| 0 <= j < ls.len() implies line_clause(#[trigger] ls[j]) is Some by {
                if j > 0 {
                    assert(line_clause(tail[j - 1]) is Some);
                }
            }
            let c = line_clause(ls[0])->Some_0;
            let r = clauses_of_lines(tail)->Some_0;
            assert(clauses_of_lines(ls)->Some_0 == seq![c] + r);
            assert forall|j: int| 0 <= j < ls.len() implies (clauses_of_lines(ls)->Some_0)[j]
                == line_clause(#[trigger] ls[j])->Some_0 by {
                if j == 0 {
                    assert((seq![c] + r)[0] == c);
                } else {
                    assert((seq![c] + r)[j] == r[j - 1]);
                    assert(tail[j - 1] == ls[j]);
                }
            }
        }
        if forall|j: int| 0 <= j < ls.len() ==> line_clause(#[trigger] ls[j]) is Some {
            assert(line_clause(ls[0]) is Some);
            assert forall|j: int| 0 <= j < tail.len() implies line_clause(
                #[trigger] tail[j],
            ) is Some by {
                assert(tail[j] == ls[j + 1]);
                assert(line_clause(ls[j + 1]) is Some);
            }
            assert(clauses_of_lines(tail) is Some);
            assert(clauses_of_lines(ls) is Some);
        }
    }
}

/// The lines that carry clauses: comment lines dropped, then one
/// declaration line dropped unseen.
pub open spec fn data_lines(s: Seq<char>) -> Seq<Seq<char>> {
    let sk = skip_comments(lines_of(s));
    if sk.len() == 0 {
        sk
    } else {
        sk.drop_first()
    }
}

/// What the reader makes of a whole document.
pub open spec fn dimacs_clauses(s: Seq<char>) -> Option<Seq<Seq<isize>>> {
    clauses_of_lines(data_lines(s))
}

/// The reader's failure: the text of the first line it could not read.
#[derive(Debug)]
pub struct ParseError {
    pub line: Vec<char>,
}

fn is_space_char(c: char) -> (r: bool)
    ensures
        r == is_space(c),
{
    c == ' ' || c == '\t' || c == '\n' || c == '\r' || c == '\u{b}' || c == '\u{c}'
}

/// The characters of a text, in order.
fn chars_of(s: &str) -> (r: Vec<char>)
    ensures
        r@ == s@,
{
    let n = s.unicode_len();
    let mut r: Vec<char> = Vec::new();
    let mut i: usize = 0;
    while i < n
        invariant
            i <= n,
            n as nat == s@.len(),
            r@ == s@.take(i as int),
        decreases n - i,
    {
        let c = s.get_char(i);
        r.push(c);
        proof {
            assert(s@.take(i as int + 1) =~= s@.take(i as int).push(s@[i as int]));
        }
        i += 1;
    }
    proof {
        assert(s@.take(s@.len() as int) =~= s@);
    }
    r
}

/// The text cut into lines.
fn split_lines(v: &Vec<char>) -> (r: Vec<Vec<char>>)
    ensures
        r.deep_view() == lines_of(v@),
{
    let mut out: Vec<Vec<char>> = Vec::new();
    let mut p: usize = 0;
    proof {
        assert(v@.skip(0) =~= v@);
        assert(out.deep_view() =~= Seq::<Seq<char>>::empty());
        assert(Seq::<Seq<char>>::empty() + lines_of(v@) =~= lines_of(v@));
    }
    while p < v.len()
        invariant
            p <= v.len(),
            lines_of(v@) == out.deep_view() + lines_of(v@.skip(p as int)),
        decreases v.len() - p,
    {
        let ghost out0 = out.deep_view();
        let mut e: usize = p;
        while e < v.len() && v[e] != '\n'
            invariant
                p <= e <= v.len(),
                forall|j: int| p <= j < e ==> v@[j] != '\n',
            decreases v.len() - e,
        {
            e += 1;
        }
        proof {
            lemma_find_newline(v@, p as int);
            let fe = find_newline(v@, p as int);
            if e < fe {
                assert(v@[e as int] == '\n');
            }
            if fe < e {
                assert(v@[fe] != '\n');
            }
            assert(e as int == fe);
        }
        let mut e2: usize = e;
        if e2 > p && v[e2 - 1] == '\r' {
            e2 -= 1;
        }
        let mut line: Vec<char> = Vec::new();
        let mut j: usize = p;
        while j < e2
            invariant
                p <= j <= e2 <= v.len(),
                line@ == v@.subrange(p as int, j as int),
            decreases e2 - j,
        {
            line.push(v[j]);
            proof {
                assert(v@.subrange(p as int, j as int + 1) =~= v@.subrange(
                    p as int,
                    j as int,
                ).push(v@[j as int]));
            }
            j += 1;
        }
        proof {
            let full = if e as int == v@.len() as int {
                v@.skip(p as int)
            } else {
                v@.subrange(p as int, e as int)
            };
            assert(v@.skip(p as int) =~= v@.subrange(p as int, v@.len() as int));
            assert(line@ =~= strip_cr(full)) by {
                if e2 < e {
                    assert(full[full.len() - 1] == v@[e as int - 1]);
                    assert(strip_cr(full) =~= v@.subrange(p as int, e as int - 1));
                } else {
                    assert(full.len() > 0 ==> full[full.len() - 1] == v@[e as int - 1]);
                    assert(strip_cr(full) =~= full);
                    assert(full =~= v@.subrange(p as int, e as int));
                }
            }
        }
        let ghost lv = line@;
        out.push(line);
        proof {
            assert(out.deep_view() =~~= out0.push(lv));
            lemma_lines_step(v@, p as int);
            if e < v.len() {
                assert(out.deep_view() + lines_of(v@.skip(e as int + 1)) =~= out0 + (seq![lv]
                    + lines_of(v@.skip(e as int + 1))));
            } else {
                assert(lines_of(v@.skip(e as int)) =~= Seq::<Seq<char>>::empty());
                assert(out.deep_view() + lines_of(v@.skip(e as int)) =~= out0 + seq![lv]);
            }
        }
        if e < v.len() {
            p = e + 1;
        } else {
            p = e;
        }
    }
    proof {
        assert(lines_of(v@.skip(p as int)) =~= Seq::<Seq<char>>::empty());
        assert(out.deep_view() + Seq::<Seq<char>>::empty() =~= out.deep_view());
    }
    out
}

/// One token parsed as a literal, exactly as `token_lit` reads it.
fn parse_lit_range(l: &Vec<char>, from: usize, e: usize) -> (r: Result<isize, ()>)
    requires
        from < e <= l.len(),
    ensures
        match r {
            Ok(x) => token_lit(l@.subrange(from as int, e as int)) == Some(x),
            Err(_) => token_lit(l@.subrange(from as int, e as int)) is None,
        },
{
    let ghost t = l@.subrange(from as int, e as int);
    let mut p: usize = from;
    let mut negf = false;
    let c0 = l[from];
    if c0 == '+' {
        p = from + 1;
    } else if c0 == '-' {
        negf = true;
        p = from + 1;
    }
    proof {
        assert(t[0] == c0);
        if p > from {
            assert(t.drop_first() =~= l@.subrange(from as int + 1, e as int));
        }
    }
    let ghost p0 = p as int;
    proof {
        if p0 == from as int {
            assert(!(t[0] == '+') && !(t[0] == '-'));
        }
    }
    let ghost body = l@.subrange(p0, e as int);
    if p == e {
        proof {
            assert(body.len() == 0);
            assert(!all_digits(body));
        }
        return Err(());
    }
    let mut acc: i128 = 0;
    let mut big = false;
    while p < e
        invariant
            0 <= p0 <= p as int <= e as int <= l@.len(),
            from as int <= p0 <= from as int + 1,
            t == l@.subrange(from as int, e as int),
            body == l@.subrange(p0, e as int),
            p0 == from as int + 1 ==> (t[0] == '+' || t[0] == '-') && body == t.drop_first(),
            p0 == from as int ==> body == t && !(t[0] == '+') && !(t[0] == '-'),
            forall|j: int| p0 <= j < p as int ==> is_digit(#[trigger] l@[j]),
            !big ==> 0 <= acc as int <= isize::MAX as int + 1 && acc as int == digits_val(
                l@.subrange(p0, p as int),
                0,
            ),
            big ==> digits_val(l@.subrange(p0, p as int), 0) > isize::MAX as int + 1,
        decreases e - p,
    {
        let c = l[p];
        let u = c as u32;
        if u < 48 || u > 57 {
            proof {
                assert(body[p as int - p0] == l@[p as int]);
                assert(!is_digit(l@[p as int]));
                assert(!all_digits(body));
                assert(int_of_token(t) is None);
            }
            return Err(());
        }
        let ghost pre = l@.subrange(p0, p as int);
        let ghost old_acc = acc;
        let ghost old_big = big;
        let d: i128 = (u - 48) as i128;
        if !big {
            let n2: i128 = acc * 10 + d;
            if n2 > (isize::MAX as i128) + 1 {
                big = true;
            } else {
                acc = n2;
            }
        }
        proof {
            assert(l@.subrange(p0, p as int + 1) =~= pre.push(l@[p as int]));
            lemma_digits_push(pre, l@[p as int], 0);
            assert(digit_val(l@[p as int]) == d as int);
            if old_big {
                assert(digits_val(pre, 0) > isize::MAX as int + 1);
                assert(digits_val(pre, 0) * 10 + d as int > isize::MAX as int + 1);
            }
        }
        p += 1;
    }
    proof {
        assert(body =~= l@.subrange(p0, p as int));
        assert(all_digits(body));
        if p0 > from as int {
            assert(int_of_token(t) == if negf {
                Some(-digits_val(body, 0))
            } else {
                Some(digits_val(body, 0))
            }) by {
                assert(t.drop_first() =~= body);
            }
        } else {
            assert(t =~= body);
            assert(!(t[0] == '+') && !(t[0] == '-')) by {
                assert(is_digit(t[0]));
            }
            assert(int_of_token(t) == Some(digits_val(body, 0)));
        }
    }
    if big {
        return Err(());
    }
    if negf {
        if acc == (isize::MAX as i128) + 1 {
            return Ok(isize::MIN);
        }
        let xi: isize = acc as isize;
        return Ok(-xi);
    }
    if acc == (isize::MAX as i128) + 1 {
        return Err(());
    }
    Ok(acc as isize)
}

/// One data line read into a clause.
fn parse_line(l: &Vec<char>) -> (r: Result<Vec<isize>, ()>)
    ensures
        match r {
            Ok(c) => line_clause(l@) == Some(c@),
            Err(_) => line_clause(l@) is None,
        },
{
    let mut q: usize = 0;
    let mut out: Vec<isize> = Vec::new();
    while q < l.len()
        invariant
            q <= l.len(),
            match clause_from(l@, q as int) {
                Some(rest) => clause_from(l@, 0) == Some(out@ + rest),
                None => clause_from(l@, 0) is None,
            },
        decreases l.len() - q,
    {
        let c = l[q];
        if is_space_char(c) {
            q += 1;
        } else {
            let mut e: usize = q;
            while e < l.len() && !is_space_char(l[e])
                invariant
                    q <= e <= l.len(),
                    forall|j: int| q as int <= j < e as int ==> !is_space(l@[j]),
                decreases l.len() - e,
            {
                e += 1;
            }
            proof {
                lemma_token_end(l@, q as int);
                let te = token_end(l@, q as int);
                if (e as int) < te {
                    assert(is_space(l@[e as int]));
                }
                if te < e as int {
                    assert(!is_space(l@[te]));
                }
                assert(e as int == te);
            }
            let ghost t = l@.subrange(q as int, e as int);
            if e == q + 1 && l[q] == '0' {
                proof {
                    assert(t =~= seq!['0']);
                    assert(clause_from(l@, q as int) == Some(Seq::<isize>::empty()));
                    assert(out@ + Seq::<isize>::empty() =~= out@);
                }
                return Ok(out);
            }
            proof {
                assert(t != seq!['0']) by {
                    if t == seq!['0'] {
                        assert(t.len() == 1 && t[0] == '0');
                        assert(e == q + 1 && l@[q as int] == '0');
                    }
                }
            }
            match parse_lit_range(l, q, e) {
                Ok(x) => {
                    let ghost out0 = out@;
                    out.push(x);
                    proof {
                        if clause_from(l@, e as int) is Some {
                            let rest = clause_from(l@, e as int)->Some_0;
                            assert(clause_from(l@, q as int) == Some(seq![x] + rest));
                            assert(out0 + (seq![x] + rest) =~= out@ + rest);
                        }
                    }
                    q = e;
                },
                Err(_) => {
                    proof {
                        assert(clause_from(l@, q as int) is None);
                    }
                    return Err(());
                },
            }
        }
    }
    proof {
        assert(clause_from(l@, l@.len() as int) == Some(Seq::<isize>::empty()));
        assert(out@ + Seq::<isize>::empty() =~= out@);
    }
    Ok(out)
}

fn clone_chars(v: &Vec<char>) -> (r: Vec<char>)
    ensures
        r@ == v@,
{
    let mut r: Vec<char> = Vec::new();
    let mut i: usize = 0;
    while i < v.len()
        invariant
            i <= v.len(),
            r@ == v@.take(i as int),
        decreases v.len() - i,
    {
        r.push(v[i]);
        proof {
            assert(v@.take(i as int + 1) =~= v@.take(i as int).push(v@[i as int]));
        }
        i += 1;
    }
    proof {
        assert(v@.take(v@.len() as int) =~= v@);
    }
    r
}

/// Read a DIMACS document into a root node: skip the comment lines and the
/// declaration line, then read one clause per line. On the first line that
/// fails, report that line.
pub fn parse_dimacs_file(problem: &str) -> (r: Result<Formula, ParseError>)
    ensures
        match r {
            Ok(f) => dimacs_clauses(problem@) == Some(f.cls()) && f.trail() == Seq::<
                isize,
            >::empty(),
            Err(e) => dimacs_clauses(problem@) is None && exists|i: int|
                0 <= i < data_lines(problem@).len() && line_clause(
                    #[trigger] data_lines(problem@)[i],
                ) is None && e.line@ == data_lines(problem@)[i] && forall|j: int|
                    0 <= j < i ==> line_clause(#[trigger] data_lines(problem@)[j]) is Some,
        },
{
    let chars = chars_of(problem);
    let lines = split_lines(&chars);
    let ghost ls = lines.deep_view();
    let mut k: usize = 0;
    while k < lines.len() && lines[k].len() > 0 && lines[k][0] == 'c'
        invariant
            k <= lines.len(),
            ls == lines.deep_view(),
            forall|j: int| 0 <= j < k ==> is_comment(#[trigger] ls[j]),
        decreases lines.len() - k,
    {
        proof {
            assert(ls[k as int] == lines@[k as int]@);
        }
        k += 1;
    }
    proof {
        if k < lines.len() {
            assert(ls[k as int] == lines@[k as int]@);
            assert(!is_comment(ls[k as int]));
        }
        lemma_skip_comments(ls, k as int);
    }
    let start: usize = if k < lines.len() {
        k + 1
    } else {
        k
    };
    let ghost dl = data_lines(problem@);
    proof {
        let sk = skip_comments(lines_of(problem@));
        assert(sk == ls.skip(k as int));
        if k < lines.len() {
            assert(sk.len() > 0);
            assert(dl == sk.drop_first());
            assert(sk.drop_first() =~= ls.skip(start as int));
        } else {
            assert(sk.len() == 0);
            assert(dl == sk);
            assert(ls.skip(start as int) =~= sk);
        }
    }
    let mut clauses: Vec<Vec<isize>> = Vec::new();
    let mut m: usize = start;
    while m < lines.len()
        invariant
            start <= m <= lines.len(),
            start <= lines.len(),
            ls == lines.deep_view(),
            dl == ls.skip(start as int),
            dl == data_lines(problem@),
            clauses.deep_view().len() == m - start,
            forall|j: int|
                0 <= j < m - start ==> line_clause(#[trigger] dl[j]) is Some && clauses.deep_view()[j]
                    == line_clause(dl[j])->Some_0,
        decreases lines.len() - m,
    {
        proof {
            assert(ls[m as int] == lines@[m as int]@);
            assert(dl[m as int - start as int] == ls[m as int]);
        }
        let res = parse_line(&lines[m]);
        match res {
            Ok(c) => {
                let ghost cl0 = clauses.deep_view();
                let ghost cv = c@;
                clauses.push(c);
                proof {
                    assert(clauses.deep_view() =~~= cl0.push(cv));
                }
            },
            Err(_) => {
                let bad = clone_chars(&lines[m]);
                proof {
                    let i = m as int - start as int;
                    assert(line_clause(dl[i]) is None);
                    lemma_clauses_of_lines(dl);
                    assert(dimacs_clauses(problem@) is None);
                    assert(bad@ == dl[i]);
                }
                return Err(ParseError { line: bad });
            },
        }
        m += 1;
    }
    proof {
        lemma_clauses_of_lines(dl);
        assert(dl.len() == lines.len() - start);
        assert(clauses_of_lines(dl) is Some) by {
            assert forall|j: int| 0 <= j < dl.len() implies line_clause(#[trigger] dl[j]) is Some by {
                assert(line_clause(dl[j]) is Some);
            }
        }
        assert(clauses.deep_view().len() == dl.len());
        assert forall|j: int| 0 <= j < dl.len() implies (clauses_of_lines(dl)->Some_0)[j]
            == clauses.deep_view()[j] by {
            assert(line_clause(#[trigger] dl[j]) is Some);
            assert(clauses.deep_view()[j] == line_clause(dl[j])->Some_0);
        }
        assert((clauses_of_lines(dl)->Some_0) =~= clauses.deep_view());
    }
    let f = Formula::from_clauses(clauses);
    Ok(f)
}

} // verus!
