//! Text as a list of characters: splitting, trimming, numbers and replacement.

use vstd::prelude::*;

verus! {

/// The characters with the Unicode property White_Space.
pub open spec fn blank(c: char) -> bool {
    let n = c as u32;
    ||| 0x09 <= n <= 0x0D
    ||| n == 0x20
    ||| n == 0x85
    ||| n == 0xA0
    ||| n == 0x1680
    ||| 0x2000 <= n <= 0x200A
    ||| n == 0x2028
    ||| n == 0x2029
    ||| n == 0x202F
    ||| n == 0x205F
    ||| n == 0x3000
}

/// A text without the blanks it begins with.
pub open spec fn trimmed_start(s: Seq<char>) -> Seq<char>
    decreases s.len(),
{
    if s.len() > 0 && blank(s[0]) {
        trimmed_start(s.drop_first())
    } else {
        s
    }
}

/// A text without the blanks it ends with.
pub open spec fn trimmed_end(s: Seq<char>) -> Seq<char>
    decreases s.len(),
{
    if s.len() > 0 && blank(s.last()) {
        trimmed_end(s.drop_last())
    } else {
        s
    }
}

/// A text without the blanks around it.
pub open spec fn trimmed(s: Seq<char>) -> Seq<char> {
    trimmed_end(trimmed_start(s))
}

/// The pieces between the characters that separate.
pub open spec fn pieces(s: Seq<char>, separates: spec_fn(char) -> bool) -> Seq<Seq<char>>
    decreases s.len(),
{
    if s.len() == 0 {
        seq![Seq::empty()]
    } else {
        let before = pieces(s.drop_last(), separates);
        if separates(s.last()) {
            before.push(Seq::empty())
        } else {
            before.drop_last().push(before.last().push(s.last()))
        }
    }
}

/// A text has one piece at least.
proof fn lemma_some_piece(s: Seq<char>, separates: spec_fn(char) -> bool)
    ensures
        pieces(s, separates).len() >= 1,
    decreases s.len(),
{
    if s.len() > 0 {
        lemma_some_piece(s.drop_last(), separates);
    }
}

/// The pieces of two texts with a separating character between them are those of
/// the first and then those of the second.
pub proof fn lemma_pieces_join(
    a: Seq<char>,
    c: char,
    b: Seq<char>,
    separates: spec_fn(char) -> bool,
)
    requires
        separates(c),
    ensures
        pieces(a + seq![c] + b, separates) == pieces(a, separates) + pieces(b, separates),
    decreases b.len(),
{
    let joined = a + seq![c] + b;
    if b.len() == 0 {
        assert(joined.drop_last() =~= a);
        assert(pieces(joined, separates) =~= pieces(a, separates) + pieces(b, separates));
    } else {
        lemma_pieces_join(a, c, b.drop_last(), separates);
        lemma_some_piece(b.drop_last(), separates);
        assert(joined.drop_last() =~= a + seq![c] + b.drop_last());
        assert(joined.last() == b.last());
        assert(pieces(joined, separates) =~= pieces(a, separates) + pieces(b, separates));
    }
}

/// Whether `c` stands at position `i` and nowhere before.
pub open spec fn first_at(s: Seq<char>, c: char, i: int) -> bool {
    0 <= i < s.len() && s[i] == c && !s.take(i).contains(c)
}

/// A decimal digit.
pub open spec fn digit(c: char) -> bool {
    '0' <= c <= '9'
}

/// Whether a text is made of one digit or more.
pub open spec fn all_digits(s: Seq<char>) -> bool {
    s.len() > 0 && forall|i: int| 0 <= i < s.len() ==> digit(#[trigger] s[i])
}

/// The number that digits write.
pub open spec fn digits_value(s: Seq<char>) -> nat
    decreases s.len(),
{
    if s.len() == 0 {
        0
    } else {
        10 * digits_value(s.drop_last()) + (s.last() as nat - '0' as nat) as nat
    }
}

/// The integer that a text writes: digits, with a sign before them or not.
pub open spec fn integer(s: Seq<char>) -> Option<int> {
    if all_digits(s) {
        Some(digits_value(s) as int)
    } else if s.len() > 0 && s[0] == '+' && all_digits(s.drop_first()) {
        Some(digits_value(s.drop_first()) as int)
    } else if s.len() > 0 && s[0] == '-' && all_digits(s.drop_first()) {
        Some(-digits_value(s.drop_first()))
    } else {
        None
    }
}

/// The signed 64-bit number that a text writes.
pub open spec fn signed_number(s: Seq<char>) -> Option<i64> {
    match integer(s) {
        Some(n) => if i64::MIN <= n <= i64::MAX {
            Some(n as i64)
        } else {
            None
        },
        None => None,
    }
}

/// The count that a text writes: digits, with a plus before them or not.
pub open spec fn count_number(s: Seq<char>) -> Option<usize> {
    match integer(s) {
        Some(n) => if s[0] != '-' && n <= usize::MAX {
            Some(n as usize)
        } else {
            None
        },
        None => None,
    }
}

/// The decimal digits of a number.
pub open spec fn decimal(n: nat) -> Seq<char>
    decreases n,
{
    let last = ('0' as nat + n % 10) as char;
    if n < 10 {
        seq![last]
    } else {
        decimal(n / 10).push(last)
    }
}

/// `std::string::String::push`: the text with one more character.
#[verifier::external_body]
fn push_char(s: &mut String, c: char)
    ensures
        final(s)@ == old(s)@.push(c),
{
    s.push(c);
}

/// The characters of a text.
pub fn chars_of(s: &str) -> (v: Vec<char>)
    ensures
        v@ == s@,
{
    let mut v: Vec<char> = Vec::new();
    for c in it: s.chars()
        invariant
            it.seq() == s@,
            v@ == s@.take(it.index() as int),
            it.index() == it.seq().len() ==> v@ == s@,
    {
        v.push(c);
        assert(s@.take(it.index() + 1) =~= s@.take(it.index() as int).push(c));
    }
    v
}

/// The text that characters make.
pub fn text_of(v: &Vec<char>) -> (s: String)
    ensures
        s@ == v@,
{
    let mut s = String::new();
    let mut i: usize = 0;
    while i < v.len()
        invariant
            i <= v@.len(),
            s@ == v@.take(i as int),
        decreases v@.len() - i,
    {
        push_char(&mut s, v[i]);
        assert(v@.take(i + 1) =~= v@.take(i as int).push(v@[i as int]));
        i = i + 1;
    }
    assert(v@.take(i as int) =~= v@);
    s
}

/// Whether a character is blank.
pub fn is_blank(c: char) -> (b: bool)
    ensures
        b == blank(c),
{
    let n: u32 = c as u32;
    (0x09 <= n && n <= 0x0D) || n == 0x20 || n == 0x85 || n == 0xA0 || n == 0x1680 || (0x2000 <= n
        && n <= 0x200A) || n == 0x2028 || n == 0x2029 || n == 0x202F || n == 0x205F || n == 0x3000
}

/// A part of a list of characters.
pub fn part(v: &Vec<char>, from: usize, to: usize) -> (p: Vec<char>)
    requires
        from <= to <= v@.len(),
    ensures
        p@ == v@.subrange(from as int, to as int),
{
    let mut p: Vec<char> = Vec::new();
    let mut i: usize = from;
    while i < to
        invariant
            from <= i <= to,
            to <= v@.len(),
            p@ =~= v@.subrange(from as int, i as int),
        decreases to - i,
    {
        p.push(v[i]);
        i = i + 1;
    }
    p
}

/// A text without the blanks around it.
pub fn trim(v: &Vec<char>) -> (t: Vec<char>)
    ensures
        t@ == trimmed(v@),
{
    let mut a: usize = 0;
    assert(v@.skip(0) =~= v@);
    while a < v.len() && is_blank(v[a])
        invariant
            a <= v@.len(),
            trimmed_start(v@) == trimmed_start(v@.skip(a as int)),
        decreases v@.len() - a,
    {
        assert(v@.skip(a as int).drop_first() =~= v@.skip(a + 1));
        a = a + 1;
    }
    let ghost s = v@.skip(a as int);
    assert(trimmed_start(v@) == s);
    let mut b: usize = v.len();
    assert(s.take(b - a) =~= s);
    while a < b && is_blank(v[b - 1])
        invariant
            a <= b <= v@.len(),
            s == v@.skip(a as int),
            trimmed_end(s) == trimmed_end(s.take(b - a)),
        decreases b - a,
    {
        assert(s.take(b - a).drop_last() =~= s.take(b - a - 1));
        assert(s.take(b - a).last() == v@[b - 1]);
        b = b - 1;
    }
    proof {
        if a < b {
            assert(s.take(b - a).last() == v@[b - 1]);
        }
        assert(s.take(b - a) =~= v@.subrange(a as int, b as int));
    }
    part(v, a, b)
}

/// The pieces of a text between the characters `x` and `y`.
pub fn split(v: &Vec<char>, x: char, y: char) -> (out: Vec<Vec<char>>)
    ensures
        out@.map_values(|p: Vec<char>| p@) == pieces(v@, |c: char| c == x || c == y),
{
    let ghost sep = |c: char| c == x || c == y;
    let mut out: Vec<Vec<char>> = Vec::new();
    let mut from: usize = 0;
    let mut i: usize = 0;
    let ghost mut done: Seq<Seq<char>> = Seq::empty();
    proof {
        assert(v@.take(0) =~= Seq::empty());
        assert(pieces(v@.take(0), sep) =~= done.push(v@.subrange(0, 0)));
        assert(out@.map_values(|p: Vec<char>| p@) =~= done);
    }
    while i < v.len()
        invariant
            from <= i <= v@.len(),
            sep == (|c: char| c == x || c == y),
            out@.map_values(|p: Vec<char>| p@) == done,
            pieces(v@.take(i as int), sep) == done.push(v@.subrange(from as int, i as int)),
        decreases v@.len() - i,
    {
        let c: char = v[i];
        let ghost piece = v@.subrange(from as int, i as int);
        proof {
            assert(v@.take(i + 1).drop_last() =~= v@.take(i as int));
            assert(v@.take(i + 1).last() == c);
            assert(done.push(piece).drop_last() =~= done);
        }
        if c == x || c == y {
            let p = part(v, from, i);
            out.push(p);
            proof {
                assert(out@.map_values(|p: Vec<char>| p@) =~= done.push(piece));
                done = done.push(piece);
                assert(v@.subrange(i + 1, i + 1) =~= Seq::empty());
            }
            from = i + 1;
        } else {
            assert(v@.subrange(from as int, i + 1) =~= piece.push(c));
        }
        i = i + 1;
    }
    assert(v@.take(i as int) =~= v@);
    let last = part(v, from, i);
    let ghost end = last@;
    out.push(last);
    assert(out@.map_values(|p: Vec<char>| p@) =~= done.push(end));
    out
}

/// Where a character stands first.
pub fn find(v: &Vec<char>, c: char) -> (at: Option<usize>)
    ensures
        match at {
            Some(i) => first_at(v@, c, i as int),
            None => !v@.contains(c),
        },
{
    let mut i: usize = 0;
    while i < v.len()
        invariant
            i <= v@.len(),
            forall|j: int| 0 <= j < i ==> #[trigger] v@[j] != c,
        decreases v@.len() - i,
    {
        if v[i] == c {
            assert(forall|j: int| 0 <= j < i ==> #[trigger] v@.take(i as int)[j] == v@[j]);
            return Some(i);
        }
        i = i + 1;
    }
    None
}

/// Whether characters make up a given text.
pub fn spells(v: &Vec<char>, text: &str) -> (b: bool)
    ensures
        b == (v@ == text@),
{
    let t = chars_of(text);
    if v.len() != t.len() {
        return false;
    }
    let mut i: usize = 0;
    while i < v.len()
        invariant
            i <= v@.len(),
            v@.len() == t@.len(),
            t@ == text@,
            forall|j: int| 0 <= j < i ==> #[trigger] v@[j] == t@[j],
        decreases v@.len() - i,
    {
        if v[i] != t[i] {
            return false;
        }
        i = i + 1;
    }
    assert(v@ =~= t@);
    true
}

/// The number that the digits from position `from` on write, where they are
/// digits and the number is at most `limit`.
fn parse_digits(v: &Vec<char>, from: usize, limit: u128) -> (n: Option<u128>)
    requires
        from <= v@.len(),
        limit <= u64::MAX,
    ensures
        match n {
            Some(n) => all_digits(v@.skip(from as int)) && n == digits_value(
                v@.skip(from as int),
            ) && n <= limit,
            None => !all_digits(v@.skip(from as int)) || digits_value(v@.skip(from as int))
                > limit,
        },
{
    let ghost s = v@.skip(from as int);
    if from == v.len() {
        return None;
    }
    let mut n: u128 = 0;
    let mut i: usize = from;
    let mut over: bool = false;
    assert(s.take(0) =~= Seq::empty());
    while i < v.len()
        invariant
            from <= i <= v@.len(),
            s == v@.skip(from as int),
            limit <= u64::MAX,
            n <= limit,
            forall|j: int| 0 <= j < i - from ==> digit(#[trigger] s[j]),
            over ==> digits_value(s.take(i - from)) > limit,
            !over ==> n == digits_value(s.take(i - from)),
        decreases v@.len() - i,
    {
        let c: char = v[i];
        proof {
            assert(s[i - from] == c);
            assert(s.take(i - from + 1).drop_last() =~= s.take(i - from));
            assert(s.take(i - from + 1).last() == c);
        }
        if c < '0' || c > '9' {
            assert(!digit(s[i - from]));
            return None;
        }
        if !over {
            let next: u128 = n * 10 + (c as u32 - '0' as u32) as u128;
            if next > limit {
                over = true;
            } else {
                n = next;
            }
        }
        i = i + 1;
    }
    assert(s.take(i - from) =~= s);
    if over {
        None
    } else {
        Some(n)
    }
}

/// A digit is not a sign.
proof fn lemma_signs(s: Seq<char>)
    ensures
        s.len() > 0 && (s[0] == '+' || s[0] == '-') ==> !all_digits(s),
        s.skip(0) == s,
        s.len() > 0 ==> s.skip(1) == s.drop_first(),
{
    assert(s.skip(0) =~= s);
    if s.len() > 0 {
        assert(s.skip(1) =~= s.drop_first());
        if s[0] == '+' || s[0] == '-' {
            assert(!digit(s[0]));
        }
    }
}

/// The signed 64-bit number that a text writes.
pub fn parse_signed(v: &Vec<char>) -> (n: Option<i64>)
    ensures
        n == signed_number(v@),
{
    proof {
        lemma_signs(v@);
    }
    if v.len() > 0 && v[0] == '-' {
        match parse_digits(v, 1, 0x8000_0000_0000_0000) {
            Some(n) => if n == 0x8000_0000_0000_0000 {
                Some(i64::MIN)
            } else {
                Some(-(n as i64))
            },
            None => None,
        }
    } else {
        let from: usize = if v.len() > 0 && v[0] == '+' {
            1
        } else {
            0
        };
        match parse_digits(v, from, 0x7FFF_FFFF_FFFF_FFFF) {
            Some(n) => Some(n as i64),
            None => None,
        }
    }
}

/// The count that a text writes.
pub fn parse_count(v: &Vec<char>) -> (n: Option<usize>)
    ensures
        n == count_number(v@),
{
    proof {
        lemma_signs(v@);
    }
    let from: usize = if v.len() > 0 && v[0] == '+' {
        1
    } else {
        0
    };
    if v.len() > 0 && v[0] == '-' {
        return None;
    }
    match parse_digits(v, from, usize::MAX as u128) {
        Some(n) => Some(n as usize),
        None => None,
    }
}

/// A decimal digit as a character.
fn digit_char(d: u8) -> (c: char)
    requires
        d < 10,
    ensures
        c == ('0' as nat + d) as char,
{
    (48 + d) as char
}

/// The decimal digits of a number.
pub fn decimal_text(n: usize) -> (v: Vec<char>)
    ensures
        v@ == decimal(n as nat),
    decreases n,
{
    let last: char = digit_char((n % 10) as u8);
    if n < 10 {
        let mut v: Vec<char> = Vec::new();
        v.push(last);
        assert(v@ =~= seq![last]);
        v
    } else {
        let mut v = decimal_text(n / 10);
        v.push(last);
        v
    }
}

/// A text with characters in the middle.
pub fn around(before: &str, middle: &Vec<char>, after: &str) -> (s: String)
    ensures
        s@ == before@ + middle@ + after@,
{
    let mut s = before.to_owned();
    s.append(text_of(middle).as_str());
    s.append(after);
    s
}

/// A text with characters in two places.
pub fn around_two(
    before: &str,
    first: &Vec<char>,
    between: &str,
    second: &Vec<char>,
    after: &str,
) -> (s: String)
    ensures
        s@ == before@ + first@ + between@ + second@ + after@,
{
    let mut s = around(before, first, between);
    s.append(text_of(second).as_str());
    s.append(after);
    s
}

/// The lines of a text.
pub fn split_lines(v: &Vec<char>) -> (out: Vec<Vec<char>>)
    ensures
        out@.map_values(|p: Vec<char>| p@) == pieces(v@, |c: char| c == '\n'),
{
    proof {
        let twice = |c: char| c == '\n' || c == '\n';
        let once = |c: char| c == '\n';
        assert(twice =~= once);
    }
    split(v, '\n', '\n')
}

/// A text with another text in place of each occurrence of a pattern, from left to
/// right.
pub open spec fn replaced(s: Seq<char>, pattern: Seq<char>, with: Seq<char>) -> Seq<char>
    decreases s.len(),
{
    if pattern.len() == 0 || s.len() < pattern.len() {
        s
    } else if s.take(pattern.len() as int) == pattern {
        with + replaced(s.skip(pattern.len() as int), pattern, with)
    } else {
        seq![s[0]] + replaced(s.drop_first(), pattern, with)
    }
}

/// Whether a pattern stands at a position.
fn stands_at(v: &Vec<char>, at: usize, pattern: &Vec<char>) -> (b: bool)
    requires
        at + pattern@.len() <= v@.len(),
    ensures
        b == (v@.subrange(at as int, at + pattern@.len()) == pattern@),
{
    let mut i: usize = 0;
    while i < pattern.len()
        invariant
            i <= pattern@.len(),
            at + pattern@.len() <= v.len(),
            v.len() == v@.len(),
            forall|j: int| 0 <= j < i ==> v@[at + j] == #[trigger] pattern@[j],
        decreases pattern@.len() - i,
    {
        if v[at + i] != pattern[i] {
            assert(v@.subrange(at as int, at + pattern@.len())[i as int] != pattern@[i as int]);
            return false;
        }
        i = i + 1;
    }
    assert(v@.subrange(at as int, at + pattern@.len()) =~= pattern@);
    true
}

/// A text with another text in place of each occurrence of a pattern.
pub fn replace(v: &Vec<char>, pattern: &str, with: &Vec<char>) -> (out: Vec<char>)
    ensures
        out@ == replaced(v@, pattern@, with@),
{
    let p = chars_of(pattern);
    let mut out: Vec<char> = Vec::new();
    let mut i: usize = 0;
    if p.len() > 0 {
        proof {
            assert(v@.skip(0) =~= v@);
            assert(out@ + replaced(v@.skip(0), p@, with@) =~= replaced(v@, p@, with@));
        }
        while i < v.len() && v.len() - i >= p.len()
            invariant
                i <= v@.len(),
                p@ == pattern@,
                p@.len() > 0,
                out@ + replaced(v@.skip(i as int), p@, with@) == replaced(v@, p@, with@),
            decreases v@.len() - i,
        {
            let ghost rest = v@.skip(i as int);
            let ghost before = out@;
            assert(rest.take(p@.len() as int) =~= v@.subrange(i as int, i + p@.len()));
            if stands_at(v, i, &p) {
                let mut k: usize = 0;
                while k < with.len()
                    invariant
                        k <= with@.len(),
                        out@ =~= before + with@.take(k as int),
                    decreases with@.len() - k,
                {
                    out.push(with[k]);
                    k = k + 1;
                }
                proof {
                    let tail = replaced(v@.skip(i + p@.len()), p@, with@);
                    assert(with@.take(k as int) =~= with@);
                    assert(rest.skip(p@.len() as int) =~= v@.skip(i + p@.len()));
                    assert(before + (with@ + tail) =~= out@ + tail);
                }
                i = i + p.len();
            } else {
                out.push(v[i]);
                proof {
                    let tail = replaced(v@.skip(i + 1), p@, with@);
                    assert(rest.drop_first() =~= v@.skip(i + 1));
                    assert(before + (seq![v@[i as int]] + tail) =~= out@ + tail);
                }
                i = i + 1;
            }
        }
    } else {
        assert(v@.skip(0) =~= v@);
        assert(out@ + v@ =~= v@);
    }
    let ghost head = out@;
    let ghost from = i;
    assert(replaced(v@.skip(i as int), p@, with@) == v@.skip(i as int));
    while i < v.len()
        invariant
            from <= i <= v@.len(),
            out@ =~= head + v@.subrange(from as int, i as int),
        decreases v@.len() - i,
    {
        out.push(v[i]);
        i = i + 1;
    }
    assert(v@.subrange(from as int, v@.len() as int) =~= v@.skip(from as int));
    out
}

proof fn lemma_trimmed_start(s: Seq<char>) -> (i: int)
    ensures
        0 <= i <= s.len(),
        trimmed_start(s) == s.skip(i),
        forall|k: int| 0 <= k < i ==> blank(#[trigger] s[k]),
        i < s.len() ==> !blank(s[i]),
    decreases s.len(),
{
    if s.len() > 0 && blank(s[0]) {
        let rest = s.drop_first();
        let i = lemma_trimmed_start(rest);
        assert(rest.skip(i) =~= s.skip(i + 1));
        assert forall|k: int| 0 <= k < i + 1 implies blank(#[trigger] s[k]) by {
            if k > 0 {
                assert(rest[k - 1] == s[k]);
            }
        }
        i + 1
    } else {
        assert(s.skip(0) =~= s);
        0
    }
}

proof fn lemma_trimmed_end(s: Seq<char>) -> (j: int)
    ensures
        0 <= j <= s.len(),
        trimmed_end(s) == s.take(j),
        forall|k: int| j <= k < s.len() ==> blank(#[trigger] s[k]),
        j > 0 ==> !blank(s[j - 1]),
    decreases s.len(),
{
    if s.len() > 0 && blank(s.last()) {
        let rest = s.drop_last();
        let j = lemma_trimmed_end(rest);
        assert(rest.take(j) =~= s.take(j));
        assert forall|k: int| j <= k < s.len() implies blank(#[trigger] s[k]) by {
            if k < rest.len() {
                assert(rest[k] == s[k]);
            }
        }
        j
    } else {
        assert(s.take(s.len() as int) =~= s);
        s.len() as int
    }
}

/// A trimmed text is the text between its first and its last character that is not
/// blank: what is cut off is blank, and what is left neither begins nor ends blank.
pub proof fn lemma_trimmed(s: Seq<char>) -> (cut: (int, int))
    ensures
        0 <= cut.0 <= cut.1 <= s.len(),
        trimmed(s) == s.subrange(cut.0, cut.1),
        forall|k: int| 0 <= k < cut.0 || cut.1 <= k < s.len() ==> blank(#[trigger] s[k]),
        cut.0 < cut.1 ==> !blank(s[cut.0]) && !blank(s[cut.1 - 1]),
{
    let i = lemma_trimmed_start(s);
    let t = s.skip(i);
    let j = lemma_trimmed_end(t);
    assert(t.take(j) =~= s.subrange(i, i + j));
    assert forall|k: int| 0 <= k < i || i + j <= k < s.len() implies blank(#[trigger] s[k]) by {
        if k >= i {
            assert(t[k - i] == s[k]);
        }
    }
    if j > 0 {
        assert(t[j - 1] == s[i + j - 1]);
        assert(i < s.len());
    }
    (i, i + j)
}

/// A text that neither begins nor ends blank is trimmed already.
pub proof fn lemma_trimmed_already(s: Seq<char>)
    requires
        s.len() > 0 ==> !blank(s[0]) && !blank(s.last()),
    ensures
        trimmed(s) == s,
{
}

/// A text without separating characters is one piece.
pub proof fn lemma_one_piece(s: Seq<char>, separates: spec_fn(char) -> bool)
    requires
        forall|i: int| 0 <= i < s.len() ==> !separates(#[trigger] s[i]),
    ensures
        pieces(s, separates) == seq![s],
    decreases s.len(),
{
    if s.len() > 0 {
        let rest = s.drop_last();
        assert forall|i: int| 0 <= i < rest.len() implies !separates(#[trigger] rest[i]) by {
            assert(rest[i] == s[i]);
        }
        lemma_one_piece(rest, separates);
        assert(!separates(s[s.len() - 1]));
        assert(rest.push(s.last()) =~= s);
        assert(pieces(s, separates) =~= seq![s]);
    } else {
        assert(s =~= Seq::empty());
    }
}

/// The decimal digits of a number are read as the number.
pub proof fn lemma_decimal_is_read(n: nat)
    ensures
        all_digits(decimal(n)),
        digits_value(decimal(n)) == n,
        integer(decimal(n)) == Some(n as int),
        integer(seq!['+'] + decimal(n)) == Some(n as int),
        integer(seq!['-'] + decimal(n)) == Some(-(n as int)),
        decimal(n).last() as nat == '0' as nat + n % 10,
        decimal(n).drop_last() == (if n < 10 {
            Seq::empty()
        } else {
            decimal(n / 10)
        }),
    decreases n,
{
    let last = ('0' as nat + n % 10) as char;
    let s = decimal(n);
    if n < 10 {
        assert(s.drop_last() =~= Seq::empty());
        assert(all_digits(s)) by {
            assert forall|i: int| 0 <= i < s.len() implies digit(#[trigger] s[i]) by {}
        }
        assert(digits_value(s.drop_last()) == 0);
    } else {
        lemma_decimal_is_read(n / 10);
        let head = decimal(n / 10);
        assert(s == head.push(last));
        assert(s.drop_last() =~= head);
        assert(all_digits(s)) by {
            assert forall|i: int| 0 <= i < s.len() implies digit(#[trigger] s[i]) by {
                if i < head.len() {
                    assert(s[i] == head[i]);
                }
            }
        }
    }
    let plus = seq!['+'] + s;
    let minus = seq!['-'] + s;
    assert(plus.drop_first() =~= s);
    assert(minus.drop_first() =~= s);
    assert(!digit(plus[0]) && !digit(minus[0]));
}

/// A pattern is replaced where it stands, a text in which it stands nowhere stays, and a
/// character at which it does not stand is kept.
pub proof fn lemma_replaced(s: Seq<char>, pattern: Seq<char>, with: Seq<char>, rest: Seq<char>)
    requires
        pattern.len() > 0,
    ensures
        replaced(pattern + rest, pattern, with) == with + replaced(rest, pattern, with),
        s.len() > 0 && !pattern.is_prefix_of(s) ==> replaced(s, pattern, with) == seq![s[0]]
            + replaced(s.drop_first(), pattern, with),
        (forall|i: int|
            0 <= i <= s.len() - pattern.len() ==> #[trigger] s.subrange(i, i + pattern.len())
                != pattern) ==> replaced(s, pattern, with) == s,
    decreases s.len(),
{
    let all = pattern + rest;
    assert(all.take(pattern.len() as int) =~= pattern);
    assert(all.skip(pattern.len() as int) =~= rest);
    if s.len() > 0 {
        let tail = s.drop_first();
        if s.len() < pattern.len() {
            assert(seq![s[0]] + tail =~= s);
        } else {
            if s.take(pattern.len() as int) == pattern {
                assert(pattern.is_prefix_of(s));
            }
        }
        if forall|i: int|
            0 <= i <= s.len() - pattern.len() ==> #[trigger] s.subrange(i, i + pattern.len())
                != pattern {
            if s.len() >= pattern.len() {
                assert(s.subrange(0, 0int + pattern.len()) =~= s.take(pattern.len() as int));
                assert(s.subrange(0, 0int + pattern.len()) != pattern);
            }
            assert forall|i: int| 0 <= i <= tail.len() - pattern.len() implies
                #[trigger] tail.subrange(i, i + pattern.len()) != pattern by {
                assert(tail.subrange(i, i + pattern.len()) =~= s.subrange(
                    i + 1,
                    i + 1 + pattern.len(),
                ));
                assert(s.subrange(i + 1, i + 1 + pattern.len()) != pattern);
            }
            lemma_replaced(tail, pattern, with, rest);
            assert(seq![s[0]] + tail =~= s);
        }
    }
}

/// Which characters are blank: of the basic ones the space, the tab, the two ends of a
/// line and the two feeds, and the spaces of other scripts.
pub proof fn lemma_blanks(c: char)
    ensures
        c < '\u{80}' ==> (blank(c) <==> c == ' ' || c == '\t' || c == '\n' || c == '\r' || c
            == '\u{b}' || c == '\u{c}'),
        blank('\u{a0}') && blank('\u{2003}') && blank('\u{3000}') && blank('\u{2028}'),
        !blank('\u{200b}') && !blank('\u{feff}'),
{
}

/// Which numbers are read: those that fit. A count has no minus sign before it.
pub proof fn lemma_numbers_are_read(n: nat)
    ensures
        n <= i64::MAX ==> signed_number(decimal(n)) == Some(n as i64),
        n > i64::MAX ==> signed_number(decimal(n)) is None,
        n <= -i64::MIN ==> signed_number(seq!['-'] + decimal(n)) == Some((-n) as i64),
        n > -i64::MIN ==> signed_number(seq!['-'] + decimal(n)) is None,
        n <= usize::MAX ==> count_number(decimal(n)) == Some(n as usize),
        n > usize::MAX ==> count_number(decimal(n)) is None,
        count_number(seq!['-'] + decimal(n)) is None,
{
    lemma_decimal_is_read(n);
    assert((seq!['-'] + decimal(n))[0] == '-');
    assert(digit(decimal(n)[0]));
}

/// What is no number: no digit at all, or a character that is none but a sign before
/// them.
pub proof fn lemma_no_number(s: Seq<char>, i: int)
    requires
        s.len() == 0 || (0 <= i < s.len() && !('0' <= s[i] <= '9') && (i > 0 || s.len() == 1 || (
        s[i] != '+' && s[i] != '-'))),
    ensures
        signed_number(s) is None,
        count_number(s) is None,
{
    if s.len() > 0 {
        assert(!digit(s[i]));
        let t = s.drop_first();
        if i > 0 {
            assert(t[i - 1] == s[i]);
        }
    }
}

} // verus!
