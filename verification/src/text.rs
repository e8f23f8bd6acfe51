//! Reading and writing short pieces of text character by character.

use vstd::prelude::*;
use vstd::string::*;

verus! {

/// `String::push` appends one character to the end of the string.
pub assume_specification[ String::push ](s: &mut String, c: char)
    ensures
        final(s)@ == old(s)@.push(c),
;

pub open spec fn digit_char(c: char) -> bool {
    '0' <= c && c <= '9'
}

/// The value of an ASCII digit.
pub open spec fn digit_value(c: char) -> int {
    c as int - '0' as int
}

/// The Unicode characters with the property `White_Space`.
pub open spec fn white_space(c: char) -> bool {
    let u = c as u32;
    ||| 0x9 <= u <= 0xd
    ||| u == 0x20
    ||| u == 0x85
    ||| u == 0xa0
    ||| u == 0x1680
    ||| 0x2000 <= u <= 0x200a
    ||| u == 0x2028
    ||| u == 0x2029
    ||| u == 0x202f
    ||| u == 0x205f
    ||| u == 0x3000
}

/// The pieces of `s` between the characters that satisfy `sep`; one more than there are of these.
pub open spec fn split_by(s: Seq<char>, sep: spec_fn(char) -> bool) -> Seq<Seq<char>>
    decreases s.len(),
{
    if s.len() == 0 {
        seq![Seq::empty()]
    } else {
        let init = split_by(s.drop_last(), sep);
        if sep(s.last()) {
            init.push(Seq::empty())
        } else {
            init.drop_last().push(init.last().push(s.last()))
        }
    }
}

pub open spec fn is_char(c: char) -> spec_fn(char) -> bool {
    |d: char| d == c
}

pub open spec fn is_white() -> spec_fn(char) -> bool {
    |c: char| white_space(c)
}

pub open spec fn nonempty() -> spec_fn(Seq<char>) -> bool {
    |w: Seq<char>| w.len() > 0
}

/// The words of `s`: its longest runs of characters that are not white space.
pub open spec fn words(s: Seq<char>) -> Seq<Seq<char>> {
    split_by(s, is_white()).filter(nonempty())
}

/// The texts that a list of character vectors holds.
pub open spec fn texts(v: Seq<Vec<char>>) -> Seq<Seq<char>> {
    v.map_values(|w: Vec<char>| w@)
}

/// The decimal number written by the digits `d`.
pub open spec fn number(d: Seq<char>) -> int
    decreases d.len(),
{
    if d.len() == 0 {
        0
    } else {
        number(d.drop_last()) * 10 + digit_value(d.last())
    }
}

pub open spec fn all_digits(d: Seq<char>) -> bool {
    forall|i: int| 0 <= i < d.len() ==> digit_char(#[trigger] d[i])
}

/// `w` without a leading plus sign.
pub open spec fn unsigned(w: Seq<char>) -> Seq<char> {
    if w.len() > 0 && w[0] == '+' {
        w.skip(1)
    } else {
        w
    }
}

/// The number that `w` writes: digits, perhaps after a plus sign, with a value of at most `max`.
pub open spec fn parsed(w: Seq<char>, max: int) -> Option<int> {
    let d = unsigned(w);
    if d.len() > 0 && all_digits(d) && number(d) <= max {
        Some(number(d))
    } else {
        None
    }
}

/// The digit that stands for `n % 10`.
pub open spec fn digit_of(n: int) -> char {
    (('0' as u8) + (n % 10)) as u8 as char
}

/// The decimal digits of `n`, without leading zeros.
pub open spec fn decimal(n: nat) -> Seq<char>
    decreases n,
{
    if n < 10 {
        seq![digit_of(n as int)]
    } else {
        decimal(n / 10).push(digit_of(n as int))
    }
}

/// `n` in decimal with zeros in front up to `width` characters.
pub open spec fn padded(n: nat, width: nat) -> Seq<char> {
    let d = decimal(n);
    if d.len() < width {
        Seq::new((width - d.len()) as nat, |i: int| '0') + d
    } else {
        d
    }
}

/// The texts of `rows` with `sep` between them.
pub open spec fn joined(rows: Seq<Seq<char>>, sep: char) -> Seq<char>
    decreases rows.len(),
{
    if rows.len() == 0 {
        Seq::empty()
    } else if rows.len() == 1 {
        rows[0]
    } else {
        joined(rows.drop_last(), sep).push(sep) + rows.last()
    }
}

/// The characters of `s`, in order.
pub fn chars_of(s: &str) -> (r: Vec<char>)
    ensures
        r@ == s@,
{
    let mut r: Vec<char> = Vec::new();
    for c in it: s.chars()
        invariant
            it.seq() == s@,
            r@ == s@.take(it.index()),
    {
        r.push(c);
        assert(r@ =~= s@.take(it.index() + 1));
    }
    assert(s@.take(s@.len() as int) =~= s@);
    r
}

/// The string with the given characters.
pub fn string_of(v: &[char]) -> (r: String)
    ensures
        r@ == v@,
{
    let mut r = String::new();
    push_chars(&mut r, v);
    assert(r@ =~= v@);
    r
}

/// Appends characters to a string.
pub fn push_chars(s: &mut String, v: &[char])
    ensures
        final(s)@ == old(s)@ + v@,
{
    let ghost before = s@;
    let mut i: usize = 0;
    assert(s@ =~= before + v@.take(0));
    while i < v.len()
        invariant
            i <= v@.len(),
            s@ == before + v@.take(i as int),
        decreases v@.len() - i,
    {
        s.push(v[i]);
        assert(s@ =~= before + v@.take(i + 1));
        i += 1;
    }
    assert(v@.take(v@.len() as int) =~= v@);
}

/// Appends a text to a string.
pub fn push_text(s: &mut String, t: &str)
    ensures
        final(s)@ == old(s)@ + t@,
{
    let v = chars_of(t);
    push_chars(s, &v);
}

/// `head` followed by `tail`.
pub fn text_with(head: &str, tail: &[char]) -> (r: String)
    ensures
        r@ == head@ + tail@,
{
    let mut r = head.to_string();
    push_chars(&mut r, tail);
    r
}

pub fn is_white_space(c: char) -> (r: bool)
    ensures
        r == white_space(c),
{
    let u: u32 = c as u32;
    (0x9 <= u && u <= 0xd) || u == 0x20 || u == 0x85 || u == 0xa0 || u == 0x1680 || (0x2000 <= u
        && u <= 0x200a) || u == 0x2028 || u == 0x2029 || u == 0x202f || u == 0x205f || u == 0x3000
}

/// The value of an ASCII digit, if `c` is one.
pub fn to_digit(c: char) -> (r: Option<u32>)
    ensures
        r is Some <==> digit_char(c),
        r matches Some(d) ==> d == digit_value(c) && d <= 9,
{
    if '0' <= c && c <= '9' {
        Some(c as u32 - '0' as u32)
    } else {
        None
    }
}

proof fn lemma_texts_push(v: Seq<Vec<char>>, w: Vec<char>)
    ensures
        texts(v.push(w)) == texts(v).push(w@),
{
    assert(texts(v.push(w)) =~= texts(v).push(w@));
}

pub proof fn lemma_split_nonempty(s: Seq<char>, sep: spec_fn(char) -> bool)
    ensures
        split_by(s, sep).len() > 0,
    decreases s.len(),
{
    if s.len() > 0 {
        lemma_split_nonempty(s.drop_last(), sep);
    }
}

/// The pieces of `s` between occurrences of `sep`.
pub fn split_at_char(s: &[char], sep: char) -> (r: Vec<Vec<char>>)
    ensures
        texts(r@) == split_by(s@, is_char(sep)),
{
    let mut r: Vec<Vec<char>> = Vec::new();
    let mut cur: Vec<char> = Vec::new();
    let mut i: usize = 0;
    assert(s@.take(0) =~= Seq::empty());
    assert(texts(r@).push(cur@) =~= split_by(s@.take(0), is_char(sep)));
    while i < s.len()
        invariant
            i <= s@.len(),
            texts(r@).push(cur@) == split_by(s@.take(i as int), is_char(sep)),
        decreases s@.len() - i,
    {
        let c = s[i];
        let ghost done = texts(r@);
        let ghost last = cur@;
        proof {
            assert(s@.take(i + 1).drop_last() =~= s@.take(i as int));
            assert(done.push(last).drop_last() =~= done);
            lemma_texts_push(r@, cur);
        }
        if c == sep {
            r.push(cur);
            cur = Vec::new();
            assert(cur@ =~= Seq::<char>::empty());
        } else {
            cur.push(c);
        }
        i += 1;
    }
    proof {
        lemma_texts_push(r@, cur);
        assert(s@.take(s@.len() as int) =~= s@);
    }
    r.push(cur);
    r
}

/// The words of `s`.
pub fn split_whitespace(s: &[char]) -> (r: Vec<Vec<char>>)
    ensures
        texts(r@) == words(s@),
{
    let mut r: Vec<Vec<char>> = Vec::new();
    let mut cur: Vec<char> = Vec::new();
    let mut i: usize = 0;
    let ghost mut done: Seq<Seq<char>> = Seq::empty();
    proof {
        reveal(Seq::filter);
        assert(s@.take(0) =~= Seq::empty());
        assert(done.push(cur@) =~= split_by(s@.take(0), is_white()));
        assert(texts(r@) =~= done.filter(nonempty()));
    }
    while i < s.len()
        invariant
            i <= s@.len(),
            texts(r@) == done.filter(nonempty()),
            done.push(cur@) == split_by(s@.take(i as int), is_white()),
        decreases s@.len() - i,
    {
        let c = s[i];
        let ghost last = cur@;
        proof {
            assert(s@.take(i + 1).drop_last() =~= s@.take(i as int));
            assert(done.push(last).drop_last() =~= done);
            lemma_texts_push(r@, cur);
            done.lemma_filter_push(last, nonempty());
        }
        if is_white_space(c) {
            if cur.len() > 0 {
                r.push(cur);
            }
            cur = Vec::new();
            proof {
                done = done.push(last);
                assert(cur@ =~= Seq::<char>::empty());
            }
        } else {
            cur.push(c);
        }
        i += 1;
    }
    proof {
        lemma_texts_push(r@, cur);
        done.lemma_filter_push(cur@, nonempty());
        assert(s@.take(s@.len() as int) =~= s@);
    }
    if cur.len() > 0 {
        r.push(cur);
    }
    r
}

proof fn lemma_number_grows(d: Seq<char>, n: int)
    requires
        all_digits(d),
        0 <= n <= d.len(),
    ensures
        0 <= number(d.take(n)) <= number(d),
    decreases d.len(),
{
    if n == d.len() {
        assert(d.take(n) =~= d);
        if d.len() > 0 {
            let front = d.drop_last();
            lemma_number_grows(front, front.len() as int);
            assert(front.take(front.len() as int) =~= front);
        }
    } else {
        let front = d.drop_last();
        lemma_number_grows(front, n);
        assert(front.take(n) =~= d.take(n));
        assert(digit_char(d.last()));
    }
}

/// Reads a `u32` as `str::parse` does.
pub fn parse_u32(w: &[char]) -> (r: Option<u32>)
    ensures
        r is Some <==> parsed(w@, u32::MAX as int) is Some,
        r matches Some(n) ==> parsed(w@, u32::MAX as int) == Some(n as int),
{
    match parse_u64_up_to(w, 0xffff_ffff) {
        Some(n) => Some(n as u32),
        None => None,
    }
}

/// Reads a decimal number of at most `max`.
pub fn parse_u64_up_to(w: &[char], max: u64) -> (r: Option<u64>)
    ensures
        r is Some <==> parsed(w@, max as int) is Some,
        r matches Some(n) ==> parsed(w@, max as int) == Some(n as int),
{
    let ghost d = unsigned(w@);
    let start: usize = if w.len() > 0 && w[0] == '+' {
        1
    } else {
        0
    };
    if w.len() == start {
        return None;
    }
    let mut i: usize = start;
    let mut n: u64 = 0;
    while i < w.len()
        invariant
            start <= i <= w@.len(),
            start <= 1,
            d == unsigned(w@),
            d =~= w@.skip(start as int),
            forall|k: int| 0 <= k < i - start ==> digit_char(#[trigger] d[k]),
            n == number(d.take(i - start)),
            n <= max,
        decreases w@.len() - i,
    {
        let ghost k = i - start;
        assert(d[k] == w@[i as int]);
        match to_digit(w[i]) {
            None => {
                return None;
            },
            Some(v) => {
                let next: u128 = (n as u128) * 10 + v as u128;
                proof {
                    assert(d.take(k + 1).drop_last() =~= d.take(k));
                    assert(next == number(d.take(k + 1)));
                }
                if next > max as u128 {
                    proof {
                        if all_digits(d) {
                            lemma_number_grows(d, k + 1);
                        }
                    }
                    return None;
                }
                n = next as u64;
            },
        }
        i += 1;
    }
    assert(d.take(d.len() as int) =~= d);
    Some(n)
}

/// The decimal digits of `n`.
pub fn decimal_string(n: u128) -> (r: String)
    ensures
        r@ == decimal(n as nat),
    decreases n,
{
    let digit: char = match n % 10 {
        0 => '0',
        1 => '1',
        2 => '2',
        3 => '3',
        4 => '4',
        5 => '5',
        6 => '6',
        7 => '7',
        8 => '8',
        _ => '9',
    };
    let mut r = if n < 10 {
        String::new()
    } else {
        decimal_string(n / 10)
    };
    r.push(digit);
    proof {
        if n < 10 {
            assert(r@ =~= decimal(n as nat));
        }
    }
    r
}

/// `n` in decimal with zeros in front up to `width` characters.
pub fn padded_string(n: u128, width: usize) -> (r: String)
    ensures
        r@ == padded(n as nat, width as nat),
{
    let d = decimal_string(n);
    let digits = chars_of(d.as_str());
    let mut r = String::new();
    if digits.len() < width {
        let missing: usize = width - digits.len();
        let mut i: usize = 0;
        while i < missing
            invariant
                i <= missing,
                r@ == Seq::new(i as nat, |j: int| '0'),
            decreases missing - i,
        {
            r.push('0');
            i += 1;
            assert(r@ =~= Seq::new(i as nat, |j: int| '0'));
        }
    }
    push_chars(&mut r, &digits);
    assert(r@ =~= padded(n as nat, width as nat));
    r
}

/// Splitting at a separator splits what stands before it and what stands after it.
pub proof fn lemma_split_append(
    a: Seq<char>,
    c: char,
    b: Seq<char>,
    sep: spec_fn(char) -> bool,
)
    requires
        sep(c),
    ensures
        split_by(a.push(c) + b, sep) == split_by(a, sep) + split_by(b, sep),
    decreases b.len(),
{
    let s = a.push(c) + b;
    if b.len() == 0 {
        assert(s =~= a.push(c));
        assert(s.drop_last() =~= a);
        assert(split_by(s, sep) =~= split_by(a, sep) + split_by(b, sep));
    } else {
        let front = b.drop_last();
        lemma_split_append(a, c, front, sep);
        lemma_split_nonempty(front, sep);
        assert(s.drop_last() =~= a.push(c) + front);
        assert(split_by(s, sep) =~= split_by(a, sep) + split_by(b, sep));
    }
}

/// A text without separators is one piece.
pub proof fn lemma_split_whole(s: Seq<char>, sep: spec_fn(char) -> bool)
    requires
        forall|i: int| 0 <= i < s.len() ==> !sep(#[trigger] s[i]),
    ensures
        split_by(s, sep) == seq![s],
    decreases s.len(),
{
    if s.len() > 0 {
        let front = s.drop_last();
        assert forall|i: int| 0 <= i < front.len() implies !sep(#[trigger] front[i]) by {
            assert(!sep(s[i]));
        }
        lemma_split_whole(front, sep);
        assert(front.push(s.last()) =~= s);
        assert(split_by(s, sep) =~= seq![s]);
    } else {
        assert(s =~= Seq::empty());
    }
}

/// Splitting joined texts gives them back when none of them holds the separator.
pub proof fn lemma_split_joined(rows: Seq<Seq<char>>, c: char)
    requires
        rows.len() > 0,
        forall|y: int, i: int|
            0 <= y < rows.len() && 0 <= i < rows[y].len() ==> #[trigger] rows[y][i] != c,
    ensures
        split_by(joined(rows, c), is_char(c)) == rows,
    decreases rows.len(),
{
    let last = rows.last();
    assert forall|i: int| 0 <= i < last.len() implies !is_char(c)(#[trigger] last[i]) by {
        assert(rows[rows.len() - 1][i] != c);
    }
    lemma_split_whole(last, is_char(c));
    if rows.len() == 1 {
        assert(rows =~= seq![last]);
    } else {
        let front = rows.drop_last();
        assert forall|y: int, i: int|
            0 <= y < front.len() && 0 <= i < front[y].len() implies #[trigger] front[y][i] != c by {
            assert(rows[y][i] != c);
        }
        lemma_split_joined(front, c);
        lemma_split_append(joined(front, c), c, last, is_char(c));
        assert(front + seq![last] =~= rows);
    }
}

/// Two runs of other characters with a blank between them are two words.
pub proof fn lemma_two_words(a: Seq<char>, b: Seq<char>)
    requires
        a.len() > 0,
        b.len() > 0,
        forall|i: int| 0 <= i < a.len() ==> !white_space(#[trigger] a[i]),
        forall|i: int| 0 <= i < b.len() ==> !white_space(#[trigger] b[i]),
    ensures
        words(a.push(' ') + b) == seq![a, b],
{
    lemma_split_append(a, ' ', b, is_white());
    lemma_split_whole(a, is_white());
    lemma_split_whole(b, is_white());
    let pieces = seq![a] + seq![b];
    assert(pieces =~= seq![a, b]);
    reveal(Seq::filter);
    assert(pieces.drop_last() =~= seq![a]);
    assert(pieces.drop_last().drop_last() =~= Seq::empty());
    assert(pieces.filter(nonempty()) =~= seq![a, b]);
}

/// The characters of joined texts are those of the texts and the separator.
pub proof fn lemma_joined_chars(rows: Seq<Seq<char>>, c: char, p: spec_fn(char) -> bool)
    requires
        p(c),
        forall|y: int, i: int|
            0 <= y < rows.len() && 0 <= i < rows[y].len() ==> p(#[trigger] rows[y][i]),
    ensures
        forall|i: int| 0 <= i < joined(rows, c).len() ==> p(#[trigger] joined(rows, c)[i]),
    decreases rows.len(),
{
    if rows.len() > 1 {
        let front = rows.drop_last();
        assert forall|y: int, i: int| 0 <= y < front.len() && 0 <= i < front[y].len() implies p(
            #[trigger] front[y][i],
        ) by {
            assert(p(rows[y][i]));
        }
        lemma_joined_chars(front, c, p);
        let head = joined(front, c).push(c);
        assert forall|i: int| 0 <= i < joined(rows, c).len() implies p(
            #[trigger] joined(rows, c)[i],
        ) by {
            if i < joined(front, c).len() {
                assert(joined(rows, c)[i] == joined(front, c)[i]);
            } else if i >= head.len() {
                assert(p(rows[rows.len() - 1][i - head.len()]));
            }
        }
    } else if rows.len() == 1 {
        assert forall|i: int| 0 <= i < joined(rows, c).len() implies p(
            #[trigger] joined(rows, c)[i],
        ) by {
            assert(p(rows[0][i]));
        }
    }
}

/// The digits of a number read back as the number.
pub proof fn law_decimal_readable(n: nat)
    ensures
        decimal(n).len() > 0,
        all_digits(decimal(n)),
        number(decimal(n)) == n,
    decreases n,
{
    let c = digit_of(n as int);
    assert(digit_char(c) && digit_value(c) == n % 10);
    if n < 10 {
        assert(decimal(n) =~= seq![c]);
        assert(decimal(n).drop_last() =~= Seq::empty());
        assert(number(decimal(n).drop_last()) == 0);
    } else {
        law_decimal_readable(n / 10);
        let front = decimal(n / 10);
        assert(decimal(n).drop_last() =~= front);
        assert forall|i: int| 0 <= i < decimal(n).len() implies digit_char(
            #[trigger] decimal(n)[i],
        ) by {
            if i < front.len() {
                assert(decimal(n)[i] == front[i]);
            }
        }
    }
}

proof fn lemma_number_zeros(k: nat, d: Seq<char>)
    requires
        all_digits(d),
    ensures
        all_digits(Seq::new(k, |i: int| '0') + d),
        number(Seq::new(k, |i: int| '0') + d) == number(d),
    decreases d.len(), k,
{
    let zeros = Seq::new(k, |i: int| '0');
    let s = zeros + d;
    assert forall|i: int| 0 <= i < s.len() implies digit_char(#[trigger] s[i]) by {
        if i >= k {
            assert(digit_char(d[i - k]));
        }
    }
    if d.len() > 0 {
        lemma_number_zeros(k, d.drop_last());
        assert(s.drop_last() =~= zeros + d.drop_last());
    } else if k > 0 {
        let fewer = Seq::new((k - 1) as nat, |i: int| '0');
        lemma_number_zeros((k - 1) as nat, d);
        assert(s.drop_last() =~= fewer + d);
        assert(s.last() == '0');
    } else {
        assert(s =~= d);
    }
}

/// A number with zeros in front reads back as the number.
pub proof fn law_padded_readable(n: nat, width: nat)
    ensures
        padded(n, width).len() > 0,
        padded(n, width).len() >= width,
        all_digits(padded(n, width)),
        number(padded(n, width)) == n,
{
    law_decimal_readable(n);
    let d = decimal(n);
    if d.len() < width {
        lemma_number_zeros((width - d.len()) as nat, d);
    }
}

} // verus!
