//! Character-level text handling: whitespace, trimming, comments, line
//! splitting and decimal rendering, each with a specification over
//! `Seq<char>`.
use vstd::prelude::*;

verus! {

/// The Unicode `White_Space` property (PropList.txt): U+0009..U+000D,
/// U+0020, U+0085, U+00A0, U+1680, U+2000..U+200A, U+2028, U+2029, U+202F,
/// U+205F and U+3000.
pub open spec fn is_white_space(c: char) -> bool {
    let u = c as u32;
    ||| 0x09 <= u <= 0x0D
    ||| u == 0x20
    ||| u == 0x85
    ||| u == 0xA0
    ||| u == 0x1680
    ||| 0x2000 <= u <= 0x200A
    ||| u == 0x2028
    ||| u == 0x2029
    ||| u == 0x202F
    ||| u == 0x205F
    ||| u == 0x3000
}

/// Whether `c` has the Unicode `White_Space` property, as
/// `char::is_whitespace` decides.
pub fn char_is_whitespace(c: char) -> (b: bool)
    ensures
        b == is_white_space(c),
{
    let u = c as u32;
    (0x09 <= u && u <= 0x0D) || u == 0x20 || u == 0x85 || u == 0xA0 || u == 0x1680 || (0x2000
        <= u && u <= 0x200A) || u == 0x2028 || u == 0x2029 || u == 0x202F || u == 0x205F || u
        == 0x3000
}

/// `String::push`: appends one character.
#[verifier::external_body]
pub(crate) fn push_char(s: &mut String, c: char)
    ensures
        final(s)@ == old(s)@.push(c),
{
    s.push(c)
}

/// The characters of `s`, in order.
pub fn chars_of(s: &str) -> (v: Vec<char>)
    ensures
        v@ == s@,
{
    let mut v: Vec<char> = Vec::new();
    for c in it: s.chars()
        invariant
            it.seq() == s@,
            v@ == s@.take(it.index()),
    {
        v.push(c);
    }
    v
}

/// The string made of the characters `v`.
pub fn string_of(v: &Vec<char>) -> (s: String)
    ensures
        s@ == v@,
{
    let mut s = String::new();
    let mut i: usize = 0;
    while i < v.len()
        invariant
            i <= v.len(),
            s@ == v@.take(i as int),
        decreases v.len() - i,
    {
        push_char(&mut s, v[i]);
        i = i + 1;
        assert(v@.take(i as int) =~= v@.take(i - 1).push(v@[i - 1]));
    }
    assert(v@.take(v.len() as int) =~= v@);
    s
}

/// The characters `v[lo..hi]`.
pub fn copy_range(v: &Vec<char>, lo: usize, hi: usize) -> (r: Vec<char>)
    requires
        lo <= hi <= v.len(),
    ensures
        r@ == v@.subrange(lo as int, hi as int),
{
    let mut r: Vec<char> = Vec::new();
    let mut i: usize = lo;
    while i < hi
        invariant
            lo <= i <= hi <= v.len(),
            r@ == v@.subrange(lo as int, i as int),
        decreases hi - i,
    {
        r.push(v[i]);
        i = i + 1;
        assert(r@ =~= v@.subrange(lo as int, i as int));
    }
    r
}

/// `s` with leading white space removed.
pub open spec fn trim_start(s: Seq<char>) -> Seq<char>
    decreases s.len(),
{
    if s.len() > 0 && is_white_space(s[0]) {
        trim_start(s.drop_first())
    } else {
        s
    }
}

/// `s` with trailing white space removed.
pub open spec fn trim_end(s: Seq<char>) -> Seq<char>
    decreases s.len(),
{
    if s.len() > 0 && is_white_space(s.last()) {
        trim_end(s.drop_last())
    } else {
        s
    }
}

/// `str::trim`: `s` without leading and trailing white space.
pub open spec fn trim(s: Seq<char>) -> Seq<char> {
    trim_end(trim_start(s))
}

/// `v` without leading and trailing white space.
pub fn trim_chars(v: &Vec<char>) -> (r: Vec<char>)
    ensures
        r@ == trim(v@),
{
    let n = v.len();
    let mut lo: usize = 0;
    assert(v@.subrange(0, n as int) =~= v@);
    while lo < n && char_is_whitespace(v[lo])
        invariant
            lo <= n == v.len(),
            trim_start(v@.subrange(lo as int, n as int)) == trim_start(v@),
        decreases n - lo,
    {
        assert(v@.subrange(lo as int, n as int).drop_first() =~= v@.subrange(lo + 1, n as int));
        lo = lo + 1;
    }
    assert(v@.subrange(0, n as int) =~= v@);
    let mut hi: usize = n;
    while hi > lo && char_is_whitespace(v[hi - 1])
        invariant
            lo <= hi <= n == v.len(),
            trim_end(v@.subrange(lo as int, hi as int)) == trim(v@),
        decreases hi - lo,
    {
        assert(v@.subrange(lo as int, hi as int).drop_last() =~= v@.subrange(
            lo as int,
            hi - 1,
        ));
        hi = hi - 1;
    }
    copy_range(v, lo, hi)
}

/// Index of the first `c` in `s`, or `s.len()` when there is none.
pub open spec fn position_of(s: Seq<char>, c: char) -> int
    decreases s.len(),
{
    if s.len() == 0 {
        0
    } else if s[0] == c {
        0
    } else {
        1 + position_of(s.drop_first(), c)
    }
}

/// `position_of` is the first occurrence, or the length.
pub proof fn lemma_position_of(s: Seq<char>, c: char)
    ensures
        0 <= position_of(s, c) <= s.len(),
        position_of(s, c) < s.len() ==> s[position_of(s, c)] == c,
        forall|j: int| 0 <= j < position_of(s, c) ==> s[j] != c,
    decreases s.len(),
{
    if s.len() > 0 && s[0] != c {
        lemma_position_of(s.drop_first(), c);
        assert forall|j: int| 0 <= j < position_of(s, c) implies s[j] != c by {
            if j > 0 {
                assert(s[j] == s.drop_first()[j - 1]);
            }
        }
    }
}

/// Index of the first white space in `s`, or `s.len()` when there is none.
pub open spec fn white_space_position(s: Seq<char>) -> int
    decreases s.len(),
{
    if s.len() == 0 {
        0
    } else if is_white_space(s[0]) {
        0
    } else {
        1 + white_space_position(s.drop_first())
    }
}

/// `white_space_position` is the first white space, or the length.
pub proof fn lemma_white_space_position(s: Seq<char>)
    ensures
        0 <= white_space_position(s) <= s.len(),
        white_space_position(s) < s.len() ==> is_white_space(s[white_space_position(s)]),
        forall|j: int| 0 <= j < white_space_position(s) ==> !is_white_space(s[j]),
    decreases s.len(),
{
    if s.len() > 0 && !is_white_space(s[0]) {
        lemma_white_space_position(s.drop_first());
        assert forall|j: int| 0 <= j < white_space_position(s) implies !is_white_space(s[j]) by {
            if j > 0 {
                assert(s[j] == s.drop_first()[j - 1]);
            }
        }
    }
}

/// Index in `v` of the first `c` at or after `from`, or `v.len()`.
pub fn find_char(v: &Vec<char>, from: usize, c: char) -> (i: usize)
    requires
        from <= v.len(),
    ensures
        i == from + position_of(v@.subrange(from as int, v.len() as int), c),
{
    let mut i: usize = from;
    while i < v.len() && v[i] != c
        invariant
            from <= i <= v.len(),
            forall|j: int| from <= j < i ==> v@[j] != c,
        decreases v.len() - i,
    {
        i = i + 1;
    }
    proof {
        let s = v@.subrange(from as int, v.len() as int);
        lemma_position_of(s, c);
        let p = position_of(s, c);
        if p < i - from {
            assert(s[p] == v@[from + p]);
        }
        if i - from < p {
            assert(s[i - from] == v@[i as int]);
        }
    }
    i
}

/// Index in `v` of the first white space, or `v.len()`.
pub fn find_white_space(v: &Vec<char>) -> (i: usize)
    ensures
        i == white_space_position(v@),
{
    let mut i: usize = 0;
    while i < v.len() && !char_is_whitespace(v[i])
        invariant
            i <= v.len(),
            forall|j: int| 0 <= j < i ==> !is_white_space(v@[j]),
        decreases v.len() - i,
    {
        i = i + 1;
    }
    proof {
        lemma_white_space_position(v@);
    }
    i
}

/// `line` cut at its first `#`, the start of an inline comment.
pub open spec fn strip_comment(line: Seq<char>) -> Seq<char> {
    line.take(position_of(line, '#'))
}

/// Remove an inline `#` comment from a line.
pub fn strip_comment_chars(line: &Vec<char>) -> (r: Vec<char>)
    ensures
        r@ == strip_comment(line@),
{
    let i = find_char(line, 0, '#');
    assert(line@.subrange(0, line.len() as int) =~= line@);
    proof {
        lemma_position_of(line@, '#');
    }
    copy_range(line, 0, i)
}

/// Drops one trailing carriage return.
pub open spec fn strip_cr(s: Seq<char>) -> Seq<char> {
    if s.len() > 0 && s.last() == '\r' {
        s.drop_last()
    } else {
        s
    }
}

/// `str::lines`: the pieces between `\n` characters, a `\r` before a `\n`
/// removed, and no empty piece after a final `\n`.
pub open spec fn lines_of(s: Seq<char>) -> Seq<Seq<char>>
    decreases s.len(),
{
    if s.len() == 0 {
        seq![]
    } else {
        let i = position_of(s, '\n');
        if i >= s.len() {
            seq![s]
        } else {
            proof {
                lemma_position_of(s, '\n');
            }
            seq![strip_cr(s.take(i))] + lines_of(s.skip(i + 1))
        }
    }
}

/// Splits `text` into lines as `str::lines` does.
pub fn split_lines(text: &Vec<char>) -> (lines: Vec<Vec<char>>)
    ensures
        lines.deep_view() == lines_of(text@),
{
    let n = text.len();
    let mut lines: Vec<Vec<char>> = Vec::new();
    let mut pos: usize = 0;
    assert(text@.skip(0) =~= text@);
    while pos < n
        invariant
            pos <= n == text.len(),
            lines.deep_view() + lines_of(text@.skip(pos as int)) == lines_of(text@),
        decreases n - pos,
    {
        let ghost rest = text@.skip(pos as int);
        let j = find_char(text, pos, '\n');
        assert(text@.subrange(pos as int, n as int) =~= rest);
        proof {
            lemma_position_of(rest, '\n');
        }
        let ghost before = lines.deep_view();
        if j == n {
            let piece = copy_range(text, pos, n);
            assert(piece.deep_view() =~= piece@);
            lines.push(piece);
            assert(lines.deep_view() =~= before.push(rest));
            assert(text@.skip(n as int) =~= Seq::<char>::empty());
            assert(lines_of(rest) == seq![rest]);
            assert(before + seq![rest] =~= before.push(rest));
            pos = n;
        } else {
            let mut piece = copy_range(text, pos, j);
            assert(piece@ =~= rest.take(j - pos));
            if piece.len() > 0 && piece[piece.len() - 1] == '\r' {
                piece.pop();
            }
            assert(piece.deep_view() =~= piece@);
            lines.push(piece);
            assert(rest.skip(j - pos + 1) =~= text@.skip(j + 1));
            assert(lines.deep_view() =~= before.push(strip_cr(rest.take(j - pos))));
            assert(lines_of(rest) == seq![strip_cr(rest.take(j - pos))] + lines_of(
                rest.skip(j - pos + 1),
            ));
            assert(before + lines_of(rest) =~= before.push(strip_cr(rest.take(j - pos)))
                + lines_of(text@.skip(j + 1)));
            pos = j + 1;
        }
    }
    assert(text@.skip(n as int) =~= Seq::<char>::empty());
    assert(lines.deep_view() + Seq::<Seq<char>>::empty() =~= lines.deep_view());
    lines
}

/// Whether `p` is a prefix of `s` (`str::starts_with`).
pub open spec fn is_prefix(p: Seq<char>, s: Seq<char>) -> bool {
    p.len() <= s.len() && s.take(p.len() as int) == p
}

/// `is_prefix` means a leading segment: `p` is what `s` starts with, not a
/// part found further inside it.
pub proof fn is_prefix_is_a_leading_segment(p: Seq<char>, s: Seq<char>)
    ensures
        is_prefix(p, s) <==> (p.len() <= s.len() && s.take(p.len() as int) == p),
        is_prefix(p, s) ==> forall|i: int| 0 <= i < p.len() ==> s[i] == p[i],
        (p.len() <= s.len() && forall|i: int| 0 <= i < p.len() ==> s[i] == p[i]) ==> is_prefix(p, s),
{
    if p.len() <= s.len() && forall|i: int| 0 <= i < p.len() ==> s[i] == p[i] {
        assert(s.take(p.len() as int) =~= p);
    }
    if is_prefix(p, s) {
        assert forall|i: int| 0 <= i < p.len() implies s[i] == p[i] by {
            assert(s.take(p.len() as int)[i] == s[i]);
        }
    }
}

/// Whether `p` is a prefix of `s`.
pub fn starts_with_chars(s: &Vec<char>, p: &Vec<char>) -> (r: bool)
    ensures
        r == is_prefix(p@, s@),
        r == (p@.len() <= s@.len() && s@.take(p@.len() as int) == p@),
{
    if p.len() > s.len() {
        return false;
    }
    let mut i: usize = 0;
    while i < p.len()
        invariant
            p.len() <= s.len(),
            i <= p.len(),
            forall|j: int| 0 <= j < i ==> s@[j] == p@[j],
        decreases p.len() - i,
    {
        if s[i] != p[i] {
            assert(s@.take(p.len() as int)[i as int] != p@[i as int]);
            return false;
        }
        i = i + 1;
    }
    assert(s@.take(p.len() as int) =~= p@);
    true
}

/// The decimal digit `d` as a character.
pub open spec fn digit_char(d: int) -> char {
    if d == 0 {
        '0'
    } else if d == 1 {
        '1'
    } else if d == 2 {
        '2'
    } else if d == 3 {
        '3'
    } else if d == 4 {
        '4'
    } else if d == 5 {
        '5'
    } else if d == 6 {
        '6'
    } else if d == 7 {
        '7'
    } else if d == 8 {
        '8'
    } else {
        '9'
    }
}

/// The decimal rendering of `n`, without leading zeros (`0` is `"0"`).
pub open spec fn decimal(n: nat) -> Seq<char>
    decreases n,
{
    if n < 10 {
        seq![digit_char(n as int)]
    } else {
        decimal(n / 10).push(digit_char((n % 10) as int))
    }
}

fn digit(d: u32) -> (c: char)
    requires
        d < 10,
    ensures
        c == digit_char(d as int),
{
    if d == 0 {
        '0'
    } else if d == 1 {
        '1'
    } else if d == 2 {
        '2'
    } else if d == 3 {
        '3'
    } else if d == 4 {
        '4'
    } else if d == 5 {
        '5'
    } else if d == 6 {
        '6'
    } else if d == 7 {
        '7'
    } else if d == 8 {
        '8'
    } else {
        '9'
    }
}

/// Appends the decimal rendering of `n` to `s`.
pub fn push_decimal(s: &mut String, n: u32)
    ensures
        final(s)@ == old(s)@ + decimal(n as nat),
        final(s)@.take(old(s)@.len() as int) == old(s)@,
        is_canonical_decimal(final(s)@.skip(old(s)@.len() as int)),
        digits_value(final(s)@.skip(old(s)@.len() as int)) == n,
    decreases n,
{
    if n >= 10 {
        push_decimal(s, n / 10);
    }
    push_char(s, digit(n % 10));
    assert(s@ =~= old(s)@ + decimal(n as nat));
    proof {
        decimal_reads_back(n as nat);
        assert(s@.take(old(s)@.len() as int) =~= old(s)@);
        assert(s@.skip(old(s)@.len() as int) =~= decimal(n as nat));
    }
}

/// The value of a decimal digit character.
pub open spec fn digit_value(c: char) -> int {
    (c as int) - ('0' as int)
}

/// A decimal digit character.
pub open spec fn is_digit(c: char) -> bool {
    '0' as int <= c as int <= '9' as int
}

/// The number that a sequence of decimal digits denotes, most significant
/// digit first.
pub open spec fn digits_value(d: Seq<char>) -> int
    decreases d.len(),
{
    if d.len() == 0 {
        0
    } else {
        digits_value(d.drop_last()) * 10 + digit_value(d.last())
    }
}

/// At least one digit, only digits, and no leading zero unless the number
/// is zero itself.
pub open spec fn is_canonical_decimal(d: Seq<char>) -> bool {
    &&& d.len() >= 1
    &&& forall|i: int| 0 <= i < d.len() ==> is_digit(#[trigger] d[i])
    &&& (d[0] == '0' ==> d.len() == 1)
}

/// `digit_char` gives the digit character of that value.
proof fn lemma_digit_char(d: int)
    requires
        0 <= d < 10,
    ensures
        is_digit(digit_char(d)),
        digit_value(digit_char(d)) == d,
        digit_char(d) == '0' <==> d == 0,
{
}

/// The rendering of `n` reads back as `n`: it is a canonical run of decimal
/// digits whose value is `n`, so distinct numbers render differently and no
/// digit is lost.
pub proof fn decimal_reads_back(n: nat)
    ensures
        is_canonical_decimal(decimal(n)),
        digits_value(decimal(n)) == n,
        decimal(n)[0] == '0' <==> n == 0,
    decreases n,
{
    lemma_digit_char((n % 10) as int);
    if n < 10 {
        lemma_digit_char(n as int);
        assert(decimal(n).drop_last() =~= Seq::<char>::empty());
        assert(digits_value(Seq::<char>::empty()) == 0);
        assert(digits_value(decimal(n)) == digit_value(decimal(n).last()));
    } else {
        decimal_reads_back(n / 10);
        let d = decimal(n);
        let h = decimal(n / 10);
        assert(d.drop_last() =~= h);
        assert(d.last() == digit_char((n % 10) as int));
        assert(digits_value(d) == digits_value(h) * 10 + digit_value(d.last()));
        assert(d[0] == h[0]);
        assert forall|i: int| 0 <= i < d.len() implies is_digit(#[trigger] d[i]) by {
            if i < h.len() {
                assert(d[i] == h[i]);
            }
        }
        assert(n / 10 * 10 + n % 10 == n);
    }
}

/// `l` holds no line break.
pub open spec fn no_newline(l: Seq<char>) -> bool {
    forall|i: int| 0 <= i < l.len() ==> l[i] != '\n'
}

/// Every character of `w` is white space.
pub open spec fn all_white_space(w: Seq<char>) -> bool {
    forall|i: int| 0 <= i < w.len() ==> is_white_space(#[trigger] w[i])
}

/// `a` is empty or ends with a line break: what follows it starts a line.
pub open spec fn ends_line(a: Seq<char>) -> bool {
    a.len() == 0 || a.last() == '\n'
}

/// The first occurrence of `c` is at `i` when `i` holds `c` (or is the
/// length) and nothing before it does.
pub proof fn lemma_position_unique(s: Seq<char>, c: char, i: int)
    requires
        0 <= i <= s.len(),
        i < s.len() ==> s[i] == c,
        forall|j: int| 0 <= j < i ==> s[j] != c,
    ensures
        position_of(s, c) == i,
{
    lemma_position_of(s, c);
    let p = position_of(s, c);
    if p < i {
        assert(s[p] != c);
    }
    if i < p {
        assert(s[i] != c);
    }
}

/// Searching `a + b` finds the first `c` of `a`, else looks on into `b`.
pub proof fn lemma_position_of_concat(a: Seq<char>, b: Seq<char>, c: char)
    ensures
        position_of(a + b, c) == if position_of(a, c) < a.len() {
            position_of(a, c)
        } else {
            a.len() + position_of(b, c)
        },
{
    lemma_position_of(a, c);
    lemma_position_of(b, c);
    let s = a + b;
    let p = position_of(a, c);
    if p < a.len() {
        assert(s[p] == a[p]);
        assert forall|j: int| 0 <= j < p implies s[j] != c by {
            assert(s[j] == a[j]);
        }
        lemma_position_unique(s, c, p);
    } else {
        let q = a.len() + position_of(b, c);
        if q < s.len() {
            assert(s[q] == b[position_of(b, c)]);
        }
        assert forall|j: int| 0 <= j < q implies s[j] != c by {
            if j < a.len() {
                assert(s[j] == a[j]);
            } else {
                assert(s[j] == b[j - a.len()]);
            }
        }
        lemma_position_unique(s, c, q);
    }
}

/// Leading white space does not survive trimming.
pub proof fn lemma_trim_start_prepend(w: Seq<char>, x: Seq<char>)
    requires
        all_white_space(w),
    ensures
        trim_start(w + x) == trim_start(x),
    decreases w.len(),
{
    if w.len() > 0 {
        assert((w + x)[0] == w[0]);
        assert((w + x).drop_first() =~= w.drop_first() + x);
        assert forall|i: int| 0 <= i < w.drop_first().len() implies is_white_space(
            #[trigger] w.drop_first()[i],
        ) by {
            assert(w.drop_first()[i] == w[i + 1]);
        }
        lemma_trim_start_prepend(w.drop_first(), x);
    } else {
        assert(w + x =~= x);
    }
}

/// Trailing white space does not survive trimming at the end.
pub proof fn lemma_trim_end_append(y: Seq<char>, w: Seq<char>)
    requires
        all_white_space(w),
    ensures
        trim_end(y + w) == trim_end(y),
    decreases w.len(),
{
    if w.len() > 0 {
        assert((y + w).last() == w.last());
        assert((y + w).drop_last() =~= y + w.drop_last());
        assert forall|i: int| 0 <= i < w.drop_last().len() implies is_white_space(
            #[trigger] w.drop_last()[i],
        ) by {
            assert(w.drop_last()[i] == w[i]);
        }
        lemma_trim_end_append(y, w.drop_last());
    } else {
        assert(y + w =~= y);
    }
}

/// White space alone trims to nothing from the start.
pub proof fn lemma_trim_start_white_space(w: Seq<char>)
    requires
        all_white_space(w),
    ensures
        trim_start(w).len() == 0,
{
    lemma_trim_start_prepend(w, Seq::empty());
    assert(w + Seq::<char>::empty() =~= w);
}

/// Removing leading white space from `x + w` keeps `w` unless `x` is all
/// white space.
pub proof fn lemma_trim_start_append(x: Seq<char>, w: Seq<char>)
    requires
        all_white_space(w),
    ensures
        trim_start(x + w) == if trim_start(x).len() > 0 {
            trim_start(x) + w
        } else {
            trim_start(w)
        },
    decreases x.len(),
{
    if x.len() == 0 {
        assert(x + w =~= w);
    } else {
        assert((x + w)[0] == x[0]);
        if is_white_space(x[0]) {
            assert((x + w).drop_first() =~= x.drop_first() + w);
            lemma_trim_start_append(x.drop_first(), w);
        }
    }
}

/// Trimming ignores white space added before and after.
pub proof fn lemma_trim_surrounded(w1: Seq<char>, x: Seq<char>, w2: Seq<char>)
    requires
        all_white_space(w1),
        all_white_space(w2),
    ensures
        trim(w1 + x + w2) == trim(x),
{
    assert(w1 + x + w2 =~= w1 + (x + w2));
    lemma_trim_start_prepend(w1, x + w2);
    lemma_trim_start_append(x, w2);
    if trim_start(x).len() > 0 {
        lemma_trim_end_append(trim_start(x), w2);
    } else {
        lemma_trim_start_white_space(w2);
    }
}

/// The comment-free, trimmed content of a line ignores white space added
/// at either end.
pub proof fn lemma_content_ignores_edge_white_space(w1: Seq<char>, l: Seq<char>, w2: Seq<char>)
    requires
        all_white_space(w1),
        all_white_space(w2),
    ensures
        trim(strip_comment(w1 + l + w2)) == trim(strip_comment(l)),
{
    let s = w1 + l + w2;
    assert(s =~= w1 + (l + w2));
    lemma_position_of(w1, '#');
    lemma_position_of(w2, '#');
    lemma_position_of(l, '#');
    if position_of(w1, '#') < w1.len() {
        assert(is_white_space(w1[position_of(w1, '#')]));
    }
    if position_of(w2, '#') < w2.len() {
        assert(is_white_space(w2[position_of(w2, '#')]));
    }
    lemma_position_of_concat(w1, l + w2, '#');
    lemma_position_of_concat(l, w2, '#');
    let p = position_of(l, '#');
    let empty = Seq::<char>::empty();
    if p < l.len() {
        assert(strip_comment(s) =~= w1 + l.take(p) + empty);
        lemma_trim_surrounded(w1, l.take(p), empty);
    } else {
        assert(strip_comment(s) =~= s);
        assert(strip_comment(l) =~= l);
        lemma_trim_surrounded(w1, l, w2);
    }
}

/// A carriage return at the end of a line does not change its content.
pub proof fn lemma_content_ignores_cr(l: Seq<char>)
    ensures
        trim(strip_comment(strip_cr(l))) == trim(strip_comment(l)),
{
    if l.len() > 0 && l.last() == '\r' {
        let m = l.drop_last();
        let cr = seq!['\r'];
        let empty = Seq::<char>::empty();
        assert(all_white_space(cr));
        assert(empty + m + cr =~= l);
        lemma_content_ignores_edge_white_space(empty, m, cr);
        assert(empty + m + empty =~= m);
        assert(all_white_space(empty));
    }
}

/// Lines of `a + b` are the lines of `a` then those of `b`, when `a` ends a
/// line.
pub proof fn lemma_lines_of_concat(a: Seq<char>, b: Seq<char>)
    requires
        ends_line(a),
    ensures
        lines_of(a + b) == lines_of(a) + lines_of(b),
    decreases a.len(),
{
    if a.len() == 0 {
        assert(a + b =~= b);
        assert(lines_of(a) + lines_of(b) =~= lines_of(b));
    } else {
        lemma_position_of(a, '\n');
        let i = position_of(a, '\n');
        if i == a.len() {
            assert(a[a.len() - 1] != '\n');
        }
        lemma_position_of_concat(a, b, '\n');
        let s = a + b;
        assert(s.take(i) =~= a.take(i));
        assert(s.skip(i + 1) =~= a.skip(i + 1) + b);
        let rest = a.skip(i + 1);
        if rest.len() > 0 {
            assert(rest.last() == a.last());
        }
        lemma_lines_of_concat(rest, b);
        assert(lines_of(s) == seq![strip_cr(a.take(i))] + lines_of(rest + b));
        assert(lines_of(a) == seq![strip_cr(a.take(i))] + lines_of(rest));
        assert(seq![strip_cr(a.take(i))] + (lines_of(rest) + lines_of(b)) =~= (seq![
            strip_cr(a.take(i)),
        ] + lines_of(rest)) + lines_of(b));
    }
}

/// A line without a line break followed by one is a single line (its
/// carriage return dropped); at the end of a text it is one line, or none
/// when empty.
pub proof fn lemma_lines_of_one_line(l: Seq<char>, b: Seq<char>)
    requires
        no_newline(l),
    ensures
        lines_of(l + seq!['\n'] + b) == seq![strip_cr(l)] + lines_of(b),
        lines_of(l) == if l.len() == 0 {
            Seq::<Seq<char>>::empty()
        } else {
            seq![l]
        },
{
    let a = l + seq!['\n'];
    assert(a.last() == '\n');
    assert forall|j: int| 0 <= j < l.len() implies a[j] != '\n' by {
        assert(a[j] == l[j]);
    }
    lemma_position_unique(a, '\n', l.len() as int);
    assert(a.take(l.len() as int) =~= l);
    assert(a.skip(l.len() as int + 1) =~= Seq::<char>::empty());
    assert(lines_of(Seq::<char>::empty()) =~= Seq::<Seq<char>>::empty());
    assert(lines_of(a) == seq![strip_cr(a.take(l.len() as int))] + lines_of(
        a.skip(l.len() as int + 1),
    ));
    assert(lines_of(a) =~= seq![strip_cr(l)]);
    lemma_lines_of_concat(a, b);
    assert(l + seq!['\n'] + b == a + b);
    lemma_position_unique(l, '\n', l.len() as int);
}

/// A text that neither starts nor ends with white space is its own trim.
pub proof fn lemma_trim_of_trimmed(x: Seq<char>)
    requires
        x.len() == 0 || (!is_white_space(x[0]) && !is_white_space(x.last())),
    ensures
        trim(x) == x,
{
}

/// A text without white space has its first white space at its end.
pub proof fn lemma_no_white_space_position(k: Seq<char>)
    requires
        forall|i: int| 0 <= i < k.len() ==> !is_white_space(#[trigger] k[i]),
    ensures
        white_space_position(k) == k.len(),
{
    lemma_white_space_position(k);
    if white_space_position(k) < k.len() {
        assert(!is_white_space(k[white_space_position(k)]));
    }
}

} // verus!
