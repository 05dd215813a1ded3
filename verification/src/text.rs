//! Character-level text handling used by the instance-file parser: white
//! space, trimming, splitting into lines and words, and decimal numbers.
use vstd::prelude::*;

verus! {

/// The characters with the Unicode `White_Space` property, which is what
/// `char::is_whitespace` recognises.
pub open spec fn is_ws(c: char) -> bool {
    ||| ('\u{9}' <= c && c <= '\u{d}')
    ||| c == ' '
    ||| c == '\u{85}'
    ||| c == '\u{a0}'
    ||| c == '\u{1680}'
    ||| ('\u{2000}' <= c && c <= '\u{200a}')
    ||| c == '\u{2028}'
    ||| c == '\u{2029}'
    ||| c == '\u{202f}'
    ||| c == '\u{205f}'
    ||| c == '\u{3000}'
}

/// `true` exactly when `c` is a white-space character.
pub fn is_whitespace(c: char) -> (r: bool)
    ensures
        r == is_ws(c),
{
    ('\u{9}' <= c && c <= '\u{d}') || c == ' ' || c == '\u{85}' || c == '\u{a0}' || c
        == '\u{1680}' || ('\u{2000}' <= c && c <= '\u{200a}') || c == '\u{2028}' || c
        == '\u{2029}' || c == '\u{202f}' || c == '\u{205f}' || c == '\u{3000}'
}

/// `s` without its leading white space.
pub open spec fn trim_start(s: Seq<char>) -> Seq<char>
    decreases s.len(),
{
    if s.len() > 0 && is_ws(s[0]) {
        trim_start(s.drop_first())
    } else {
        s
    }
}

/// `s` without its trailing white space.
pub open spec fn trim_end(s: Seq<char>) -> Seq<char>
    decreases s.len(),
{
    if s.len() > 0 && is_ws(s.last()) {
        trim_end(s.drop_last())
    } else {
        s
    }
}

/// `s` without leading and trailing white space (what `str::trim` gives).
pub open spec fn trim(s: Seq<char>) -> Seq<char> {
    trim_end(trim_start(s))
}

/// Splitting `s` on a separator, read from left to right: the pieces already
/// closed by a separator, and the piece still open.
pub open spec fn split_acc(s: Seq<char>, sep: char) -> (Seq<Seq<char>>, Seq<char>)
    decreases s.len(),
{
    if s.len() == 0 {
        (seq![], seq![])
    } else {
        let (done, cur) = split_acc(s.drop_last(), sep);
        if s.last() == sep {
            (done.push(cur), seq![])
        } else {
            (done, cur.push(s.last()))
        }
    }
}

/// The lines of `s`: the pieces between line feeds, empty pieces included.
pub open spec fn lines(s: Seq<char>) -> Seq<Seq<char>> {
    split_acc(s, '\n').0.push(split_acc(s, '\n').1)
}

/// The lines `ls` written one after the other, with a line feed between
/// two consecutive lines.
pub open spec fn join_lines(ls: Seq<Seq<char>>) -> Seq<char>
    decreases ls.len(),
{
    if ls.len() == 0 {
        seq![]
    } else if ls.len() == 1 {
        ls[0]
    } else {
        join_lines(ls.drop_last()) + seq!['\n'] + ls.last()
    }
}

proof fn lemma_join_push_char(d: Seq<Seq<char>>, cur: Seq<char>, c: char)
    ensures
        join_lines(d.push(cur.push(c))) == join_lines(d.push(cur)).push(c),
{
    assert(d.push(cur.push(c)).drop_last() =~= d);
    assert(d.push(cur).drop_last() =~= d);
    if d.len() > 0 {
        assert(join_lines(d) + seq!['\n'] + cur.push(c) =~= (join_lines(d) + seq!['\n'] + cur).push(
            c,
        ));
    }
}

/// The lines of a text are all of it: they hold no line feed, there is one
/// more of them than there are line feeds, and written back with a line
/// feed between two of them they give the text again. In particular the
/// last line is there even when no line feed ends it.
pub proof fn lemma_lines_join(s: Seq<char>)
    ensures
        join_lines(lines(s)) == s,
        lines(s).len() >= 1,
        forall|k: int, m: int|
            0 <= k < lines(s).len() && 0 <= m < lines(s)[k].len() ==> #[trigger] lines(s)[k][m]
                != '\n',
    decreases s.len(),
{
    let (d, cur) = split_acc(s, '\n');
    if s.len() == 0 {
        assert(lines(s) =~= seq![Seq::<char>::empty()]);
    } else {
        lemma_lines_join(s.drop_last());
        let (d0, c0) = split_acc(s.drop_last(), '\n');
        assert(lines(s.drop_last()) == d0.push(c0));
        if s.last() == '\n' {
            assert(lines(s) == d0.push(c0).push(Seq::<char>::empty()));
            assert(d0.push(c0).push(Seq::<char>::empty()).drop_last() =~= d0.push(c0));
            assert(join_lines(lines(s)) =~= s.drop_last() + seq!['\n'] + Seq::<char>::empty());
            assert(s.drop_last() + seq!['\n'] + Seq::<char>::empty() =~= s);
            assert forall|k: int, m: int|
                0 <= k < lines(s).len() && 0 <= m < lines(s)[k].len() implies #[trigger] lines(
                s,
            )[k][m] != '\n' by {
                assert(lines(s)[k] == lines(s.drop_last())[k]);
            }
        } else {
            assert(lines(s) == d0.push(c0.push(s.last())));
            lemma_join_push_char(d0, c0, s.last());
            assert(s.drop_last().push(s.last()) =~= s);
            assert forall|k: int, m: int|
                0 <= k < lines(s).len() && 0 <= m < lines(s)[k].len() implies #[trigger] lines(
                s,
            )[k][m] != '\n' by {
                if k < d0.len() {
                    assert(lines(s)[k] == lines(s.drop_last())[k]);
                } else {
                    assert(lines(s)[k] == c0.push(s.last()));
                    if m < c0.len() {
                        assert(lines(s.drop_last())[k][m] == c0[m]);
                    }
                }
            }
        }
    }
}

/// A line feed added at the end of a text only adds an empty last line.
pub proof fn lemma_lines_push_newline(s: Seq<char>)
    ensures
        lines(s.push('\n')) == lines(s).push(Seq::<char>::empty()),
{
    assert(s.push('\n').drop_last() =~= s);
}

/// `s` with every line feed written as a carriage return and a line feed
/// (what `str::replace("\n", "\r\n")` gives).
pub open spec fn crlf(s: Seq<char>) -> Seq<char>
    decreases s.len(),
{
    if s.len() == 0 {
        seq![]
    } else if s.last() == '\n' {
        crlf(s.drop_last()) + seq!['\r', '\n']
    } else {
        crlf(s.drop_last()).push(s.last())
    }
}

/// Writing line ends as CR LF adds a carriage return at the end of every
/// line but the last.
pub proof fn lemma_split_crlf(s: Seq<char>)
    ensures
        split_acc(crlf(s), '\n') == (
            split_acc(s, '\n').0.map_values(|l: Seq<char>| l.push('\r')),
            split_acc(s, '\n').1,
        ),
    decreases s.len(),
{
    if s.len() == 0 {
        assert(split_acc(s, '\n').0.map_values(|l: Seq<char>| l.push('\r')) =~= seq![]);
    } else {
        lemma_split_crlf(s.drop_last());
        let x = crlf(s.drop_last());
        let (d, c) = split_acc(s.drop_last(), '\n');
        let dm = d.map_values(|l: Seq<char>| l.push('\r'));
        assert(split_acc(x, '\n') == (dm, c));
        if s.last() == '\n' {
            let y = x + seq!['\r', '\n'];
            assert(crlf(s) == y);
            let z = x.push('\r');
            assert(y.drop_last() =~= z);
            assert(y.last() == '\n');
            assert(z.drop_last() =~= x);
            assert(z.last() == '\r');
            assert(split_acc(z, '\n') == (dm, c.push('\r')));
            assert(split_acc(y, '\n') == (dm.push(c.push('\r')), Seq::<char>::empty()));
            assert(split_acc(s, '\n') == (d.push(c), Seq::<char>::empty()));
            assert(d.push(c).map_values(|l: Seq<char>| l.push('\r')) =~= dm.push(c.push('\r')));
        } else {
            let y = x.push(s.last());
            assert(crlf(s) == y);
            assert(y.drop_last() =~= x);
            assert(y.last() == s.last());
            assert(split_acc(y, '\n') == (dm, c.push(s.last())));
            assert(split_acc(s, '\n') == (d, c.push(s.last())));
        }
    }
}

proof fn lemma_trim_start_push(l: Seq<char>, c: char)
    ensures
        trim_start(l.push(c)) == if trim_start(l).len() > 0 {
            trim_start(l).push(c)
        } else {
            trim_start(seq![c])
        },
    decreases l.len(),
{
    if l.len() == 0 {
        assert(l.push(c) =~= seq![c]);
    } else if is_ws(l[0]) {
        assert(l.push(c).drop_first() =~= l.drop_first().push(c));
        lemma_trim_start_push(l.drop_first(), c);
    }
}

/// A white-space character added at the end of a line trims away.
pub proof fn lemma_trim_push_ws(l: Seq<char>, c: char)
    requires
        is_ws(c),
    ensures
        trim(l.push(c)) == trim(l),
{
    lemma_trim_start_push(l, c);
    let t = trim_start(l);
    if t.len() > 0 {
        assert(t.push(c).drop_last() =~= t);
        assert(t.push(c).last() == c);
        assert(trim_end(t.push(c)) == trim_end(t));
    } else {
        let e = Seq::<char>::empty();
        assert(seq![c].drop_first() =~= e);
        assert(trim_start(e) == e);
        assert(trim_start(seq![c]) == e);
        assert(trim_end(e) == e);
        assert(trim(l) == trim_end(t));
        assert(t =~= e);
    }
}

/// Splitting `s` into words, read from left to right: the words already
/// closed by white space, and the word being read.
pub open spec fn words_acc(s: Seq<char>) -> (Seq<Seq<char>>, Seq<char>)
    decreases s.len(),
{
    if s.len() == 0 {
        (seq![], seq![])
    } else {
        let (done, cur) = words_acc(s.drop_last());
        if is_ws(s.last()) {
            if cur.len() > 0 {
                (done.push(cur), seq![])
            } else {
                (done, cur)
            }
        } else {
            (done, cur.push(s.last()))
        }
    }
}

/// The maximal runs of non-white-space characters of `s`, in order (what
/// `str::split_whitespace` gives).
pub open spec fn words(s: Seq<char>) -> Seq<Seq<char>> {
    if words_acc(s).1.len() > 0 {
        words_acc(s).0.push(words_acc(s).1)
    } else {
        words_acc(s).0
    }
}

/// `s` begins with `p`.
pub open spec fn starts_with(s: Seq<char>, p: Seq<char>) -> bool {
    p.len() <= s.len() && s.take(p.len() as int) == p
}

/// The position of the first `c` in `s`, if any.
pub open spec fn first_index_of(s: Seq<char>, c: char) -> Option<int> {
    if exists|i: int| 0 <= i < s.len() && s[i] == c {
        Some(choose|i: int| 0 <= i < s.len() && s[i] == c && forall|j: int| 0 <= j < i ==> s[j] != c)
    } else {
        None
    }
}

/// `s` cut around its first `c` (what `str::split_once` gives for a char).
pub open spec fn split_once(s: Seq<char>, c: char) -> Option<(Seq<char>, Seq<char>)> {
    match first_index_of(s, c) {
        Some(i) => Some((s.take(i), s.skip(i + 1))),
        None => None,
    }
}

pub open spec fn is_digit(c: char) -> bool {
    '0' <= c && c <= '9'
}

/// The number written by the decimal digits `s`.
pub open spec fn digits_value(s: Seq<char>) -> nat
    decreases s.len(),
{
    if s.len() == 0 {
        0
    } else {
        digits_value(s.drop_last()) * 10 + ((s.last() as nat) - ('0' as nat)) as nat
    }
}

/// The digits that follow an optional leading `+`.
pub open spec fn unsigned_digits(s: Seq<char>) -> Seq<char> {
    if s.len() > 0 && s[0] == '+' {
        s.drop_first()
    } else {
        s
    }
}

/// What `str::parse::<u32>` gives: an optional `+` followed by at least one
/// decimal digit and nothing else, whose value fits in a `u32`.
pub open spec fn parse_u32(s: Seq<char>) -> Option<u32> {
    let d = unsigned_digits(s);
    if d.len() > 0 && (forall|i: int| 0 <= i < d.len() ==> is_digit(#[trigger] d[i]))
        && digits_value(d) <= u32::MAX {
        Some(digits_value(d) as u32)
    } else {
        None
    }
}

/// `parse_u32`, with 0 for text that is no such number.
pub open spec fn parse_u32_or_zero(s: Seq<char>) -> u32 {
    match parse_u32(s) {
        Some(v) => v,
        None => 0,
    }
}

proof fn lemma_digits_value_monotone(s: Seq<char>, k: int)
    requires
        0 <= k <= s.len(),
        forall|i: int| 0 <= i < s.len() ==> is_digit(#[trigger] s[i]),
    ensures
        digits_value(s.take(k)) <= digits_value(s),
    decreases s.len() - k,
{
    if k < s.len() {
        lemma_digits_value_monotone(s, k + 1);
        assert(s.take(k + 1).drop_last() =~= s.take(k));
    } else {
        assert(s.take(k) =~= s);
    }
}

/// The characters of `s`.
pub fn chars_of(s: &str) -> (r: Vec<char>)
    ensures
        r@ == s@,
{
    broadcast use vstd::string::group_string_axioms;

    let mut v: Vec<char> = Vec::new();
    for c in it: s.chars()
        invariant
            v@ == it.seq().take(it.index() as int),
    {
        v.push(c);
    }
    v
}

/// The text of `s` between character positions `a` and `b`.
pub fn substring(s: &str, a: usize, b: usize) -> (r: String)
    requires
        a <= b <= s@.len(),
    ensures
        r@ == s@.subrange(a as int, b as int),
{
    let t = s.substring_char(a, b);
    String::from_str(t)
}

/// The bounds of `trim(v[a..b])` inside `v`.
pub fn trim_range(v: &Vec<char>, a: usize, b: usize) -> (r: (usize, usize))
    requires
        a <= b <= v@.len(),
    ensures
        a <= r.0 <= r.1 <= b,
        v@.subrange(r.0 as int, r.1 as int) == trim(v@.subrange(a as int, b as int)),
{
    let mut i: usize = a;
    while i < b && is_whitespace(v[i])
        invariant
            a <= i <= b <= v@.len(),
            trim_start(v@.subrange(a as int, b as int)) == trim_start(v@.subrange(i as int, b as int)),
        decreases b - i,
    {
        assert(v@.subrange(i as int, b as int).drop_first() =~= v@.subrange(i + 1, b as int));
        i = i + 1;
    }
    assert(trim_start(v@.subrange(i as int, b as int)) == v@.subrange(i as int, b as int));
    let mut j: usize = b;
    while j > i && is_whitespace(v[j - 1])
        invariant
            a <= i <= j <= b <= v@.len(),
            trim(v@.subrange(a as int, b as int)) == trim_end(v@.subrange(i as int, j as int)),
        decreases j - i,
    {
        assert(v@.subrange(i as int, j as int).drop_last() =~= v@.subrange(i as int, j - 1));
        j = j - 1;
    }
    (i, j)
}

/// `v[a..b]` reads `p`.
pub fn range_eq(v: &Vec<char>, a: usize, b: usize, p: &Vec<char>) -> (r: bool)
    requires
        a <= b <= v@.len(),
    ensures
        r == (v@.subrange(a as int, b as int) == p@),
{
    if b - a != p.len() {
        return false;
    }
    let mut k: usize = 0;
    while k < p.len()
        invariant
            b - a == p@.len(),
            a <= b <= v@.len(),
            k <= p@.len(),
            forall|t: int| 0 <= t < k ==> v@[a + t] == p@[t],
        decreases p@.len() - k,
    {
        if v[a + k] != p[k] {
            assert(v@.subrange(a as int, b as int)[k as int] != p@[k as int]);
            return false;
        }
        k = k + 1;
    }
    assert(v@.subrange(a as int, b as int) =~= p@);
    true
}

/// `v[a..b]` begins with `p`.
pub fn range_starts_with(v: &Vec<char>, a: usize, b: usize, p: &Vec<char>) -> (r: bool)
    requires
        a <= b <= v@.len(),
    ensures
        r == starts_with(v@.subrange(a as int, b as int), p@),
{
    if b - a < p.len() {
        return false;
    }
    let r = range_eq(v, a, a + p.len(), p);
    assert(v@.subrange(a as int, b as int).take(p@.len() as int) =~= v@.subrange(
        a as int,
        a + p@.len(),
    ));
    r
}

/// The position of the first `c` in `v[a..b]`, counted from `a`.
pub fn find_char(v: &Vec<char>, a: usize, b: usize, c: char) -> (r: Option<usize>)
    requires
        a <= b <= v@.len(),
    ensures
        match r {
            Some(k) => k < b - a && first_index_of(v@.subrange(a as int, b as int), c) == Some(k as int),
            None => first_index_of(v@.subrange(a as int, b as int), c) is None,
        },
{
    let ghost s = v@.subrange(a as int, b as int);
    let mut i: usize = a;
    while i < b
        invariant
            a <= i <= b <= v@.len(),
            s == v@.subrange(a as int, b as int),
            forall|j: int| 0 <= j < i - a ==> s[j] != c,
        decreases b - i,
    {
        if v[i] == c {
            let k: usize = i - a;
            assert(s[k as int] == c);
            let ghost w = choose|w: int| 0 <= w < s.len() && s[w] == c && forall|j: int| 0 <= j < w ==> s[j] != c;
            assert(0 <= w < s.len() && s[w] == c && forall|j: int| 0 <= j < w ==> s[j] != c);
            assert(w == k) by {
                if w < k {
                    assert(s[w] != c);
                } else if w > k {
                    assert(s[k as int] != c);
                }
            }
            return Some(k);
        }
        i = i + 1;
    }
    None
}

/// The bounds of the words of `v[a..b]`, in order.
pub fn word_ranges(v: &Vec<char>, a: usize, b: usize) -> (r: Vec<(usize, usize)>)
    requires
        a <= b <= v@.len(),
    ensures
        r@.len() == words(v@.subrange(a as int, b as int)).len(),
        forall|k: int|
            0 <= k < r@.len() ==> a <= (#[trigger] r@[k]).0 <= r@[k].1 <= b && v@.subrange(
                r@[k].0 as int,
                r@[k].1 as int,
            ) == words(v@.subrange(a as int, b as int))[k],
{
    let mut out: Vec<(usize, usize)> = Vec::new();
    let mut start: usize = a;
    let mut i: usize = a;
    while i < b
        invariant
            a <= start <= i <= b <= v@.len(),
            out@.len() == words_acc(v@.subrange(a as int, i as int)).0.len(),
            forall|k: int|
                0 <= k < out@.len() ==> a <= (#[trigger] out@[k]).0 <= out@[k].1 <= b
                    && v@.subrange(out@[k].0 as int, out@[k].1 as int) == words_acc(
                    v@.subrange(a as int, i as int),
                ).0[k],
            v@.subrange(start as int, i as int) == words_acc(v@.subrange(a as int, i as int)).1,
        decreases b - i,
    {
        let ghost prev = v@.subrange(a as int, i as int);
        assert(v@.subrange(a as int, i + 1).drop_last() =~= prev);
        if is_whitespace(v[i]) {
            if start < i {
                out.push((start, i));
            }
            start = i + 1;
            assert(v@.subrange(start as int, i + 1) =~= Seq::<char>::empty());
        } else {
            assert(v@.subrange(start as int, i + 1) =~= v@.subrange(start as int, i as int).push(
                v@[i as int],
            ));
        }
        i = i + 1;
    }
    if start < b {
        out.push((start, b));
    }
    out
}

/// The bounds of the lines of `v`, in order.
pub fn line_ranges(v: &Vec<char>) -> (r: Vec<(usize, usize)>)
    ensures
        r@.len() == lines(v@).len(),
        forall|k: int|
            0 <= k < r@.len() ==> (#[trigger] r@[k]).0 <= r@[k].1 <= v@.len() && v@.subrange(
                r@[k].0 as int,
                r@[k].1 as int,
            ) == lines(v@)[k],
{
    let n: usize = v.len();
    let mut out: Vec<(usize, usize)> = Vec::new();
    let mut start: usize = 0;
    let mut i: usize = 0;
    while i < n
        invariant
            n == v@.len(),
            start <= i <= n,
            out@.len() == split_acc(v@.take(i as int), '\n').0.len(),
            forall|k: int|
                0 <= k < out@.len() ==> (#[trigger] out@[k]).0 <= out@[k].1 <= n && v@.subrange(
                    out@[k].0 as int,
                    out@[k].1 as int,
                ) == split_acc(v@.take(i as int), '\n').0[k],
            v@.subrange(start as int, i as int) == split_acc(v@.take(i as int), '\n').1,
        decreases n - i,
    {
        assert(v@.take(i + 1).drop_last() =~= v@.take(i as int));
        if v[i] == '\n' {
            out.push((start, i));
            start = i + 1;
            assert(v@.subrange(start as int, i + 1) =~= Seq::<char>::empty());
        } else {
            assert(v@.subrange(start as int, i + 1) =~= v@.subrange(start as int, i as int).push(
                v@[i as int],
            ));
        }
        i = i + 1;
    }
    assert(v@.take(n as int) =~= v@);
    out.push((start, n));
    out
}

/// What `parse_u32` gives for `v[a..b]`.
pub fn parse_u32_range(v: &Vec<char>, a: usize, b: usize) -> (r: Option<u32>)
    requires
        a <= b <= v@.len(),
    ensures
        r == parse_u32(v@.subrange(a as int, b as int)),
{
    let ghost s = v@.subrange(a as int, b as int);
    let mut i: usize = a;
    if i < b && v[i] == '+' {
        i = i + 1;
    }
    let ghost d = unsigned_digits(s);
    assert(d =~= v@.subrange(i as int, b as int));
    if i == b {
        return None;
    }
    let mut acc: u64 = 0;
    let mut k: usize = i;
    while k < b
        invariant
            a <= i <= k <= b <= v@.len(),
            s == v@.subrange(a as int, b as int),
            d == unsigned_digits(s),
            d == v@.subrange(i as int, b as int),
            forall|t: int| 0 <= t < k - i ==> is_digit(#[trigger] d[t]),
            acc == digits_value(d.take(k - i)),
            acc <= u32::MAX,
        decreases b - k,
    {
        let c = v[k];
        if !('0' <= c && c <= '9') {
            assert(!is_digit(d[k - i]));
            return None;
        }
        assert(d.take(k - i + 1).drop_last() =~= d.take(k - i));
        let digit: u64 = (c as u32 - '0' as u32) as u64;
        acc = acc * 10 + digit;
        assert(acc == digits_value(d.take(k - i + 1)));
        if acc > u32::MAX as u64 {
            proof {
                if forall|t: int| 0 <= t < d.len() ==> is_digit(#[trigger] d[t]) {
                    lemma_digits_value_monotone(d, k - i + 1);
                }
            }
            return None;
        }
        k = k + 1;
    }
    assert(d.take(d.len() as int) =~= d);
    Some(acc as u32)
}

} // verus!
