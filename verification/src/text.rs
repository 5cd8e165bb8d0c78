//! Text: building strings, decimal numbers, splitting, ordering.
use vstd::prelude::*;

verus! {

broadcast use vstd::string::group_string_axioms;

/// `String::push`: the character goes to the end of the string.
pub assume_specification[ String::push ](s: &mut String, c: char)
    ensures
        final(s)@ == old(s)@.push(c),
;

/// The characters of `s`, in order.
pub fn chars_of(s: &str) -> (r: Vec<char>)
    ensures
        r@ == s@,
{
    let mut v: Vec<char> = Vec::new();
    for c in it: s.chars()
        invariant
            it.seq() == s@,
            v@ == s@.take(it.index()),
    {
        v.push(c);
        assert(s@.take(it.index() + 1) == s@.take(it.index()).push(c));
    }
    assert(s@.take(s@.len() as int) == s@);
    v
}

/// The string made of the given characters.
pub fn string_of(chars: &[char]) -> (r: String)
    ensures
        r@ == chars@,
{
    let mut s = String::new();
    let mut i: usize = 0;
    while i < chars.len()
        invariant
            i <= chars.len(),
            s@ == chars@.take(i as int),
        decreases chars.len() - i,
    {
        s.push(chars[i]);
        i += 1;
        assert(chars@.take(i as int) == chars@.take(i - 1).push(chars@[i - 1]));
    }
    assert(chars@.take(i as int) == chars@);
    s
}

/// Whether two strings hold the same characters.
pub fn same_text(a: &str, b: &str) -> (r: bool)
    ensures
        r == (a@ == b@),
{
    let x = chars_of(a);
    let y = chars_of(b);
    same_chars(x.as_slice(), y.as_slice())
}

/// Whether two rows of characters are equal.
pub fn same_chars(a: &[char], b: &[char]) -> (r: bool)
    ensures
        r == (a@ == b@),
{
    if a.len() != b.len() {
        return false;
    }
    let mut i: usize = 0;
    while i < a.len()
        invariant
            i <= a.len(),
            a.len() == b.len(),
            a@.take(i as int) == b@.take(i as int),
        decreases a.len() - i,
    {
        if a[i] != b[i] {
            assert(a@[i as int] != b@[i as int]);
            return false;
        }
        assert(a@.take(i + 1) == a@.take(i as int).push(a@[i as int]));
        assert(b@.take(i + 1) == b@.take(i as int).push(b@[i as int]));
        i += 1;
    }
    assert(a@ == a@.take(i as int));
    assert(b@ == b@.take(i as int));
    true
}

/// The order of strings: the first differing character decides, and a prefix
/// stands before what it is a prefix of.
pub open spec fn before(a: Seq<char>, b: Seq<char>) -> bool
    decreases a.len(),
{
    if b.len() == 0 {
        false
    } else if a.len() == 0 {
        true
    } else if a[0] != b[0] {
        (a[0] as int) < (b[0] as int)
    } else {
        before(a.skip(1), b.skip(1))
    }
}

/// The order of strings is a strict total order.
pub proof fn lemma_before_total(a: Seq<char>, b: Seq<char>)
    ensures
        !before(a, a),
        before(a, b) ==> !before(b, a) && a != b,
        a != b ==> before(a, b) || before(b, a),
    decreases a.len(),
{
    if a.len() > 0 && b.len() > 0 {
        lemma_before_total(a.skip(1), b.skip(1));
        lemma_before_total(a.skip(1), a.skip(1));
        if a[0] == b[0] && a.skip(1) == b.skip(1) {
            assert(a == seq![a[0]] + a.skip(1));
            assert(b == seq![b[0]] + b.skip(1));
        }
    } else if a.len() > 0 {
        lemma_before_total(a.skip(1), a.skip(1));
    } else if b.len() == 0 {
        assert(a == b);
    }
}

/// The order of strings is transitive.
pub proof fn lemma_before_transitive(a: Seq<char>, b: Seq<char>, c: Seq<char>)
    requires
        before(a, b),
        before(b, c),
    ensures
        before(a, c),
    decreases a.len(),
{
    if a.len() > 0 && a[0] == b[0] && b[0] == c[0] {
        lemma_before_transitive(a.skip(1), b.skip(1), c.skip(1));
    }
}

/// Whether `a` stands before `b`.
pub fn text_before(a: &str, b: &str) -> (r: bool)
    ensures
        r == before(a@, b@),
{
    let x = chars_of(a);
    let y = chars_of(b);
    assert(a@.skip(0) == a@);
    assert(b@.skip(0) == b@);
    let mut i: usize = 0;
    while i < x.len() && i < y.len()
        invariant
            x@ == a@,
            y@ == b@,
            i <= x.len(),
            i <= y.len(),
            before(a@, b@) == before(a@.skip(i as int), b@.skip(i as int)),
        decreases x.len() - i,
    {
        if x[i] != y[i] {
            return x[i] < y[i];
        }
        assert(a@.skip(i as int).skip(1) == a@.skip(i + 1));
        assert(b@.skip(i as int).skip(1) == b@.skip(i + 1));
        i += 1;
    }
    i < y.len()
}

/// The digit character of a number below ten.
pub open spec fn digit(d: nat) -> char {
    (('0' as u32) + d) as char
}

/// The decimal digits of a natural number.
pub open spec fn digits(n: nat) -> Seq<char>
    decreases n,
{
    if n < 10 {
        seq![digit(n)]
    } else {
        digits(n / 10).push(digit(n % 10))
    }
}

/// An integer in decimal notation.
pub open spec fn decimal(n: int) -> Seq<char> {
    if n < 0 {
        seq!['-'] + digits((-n) as nat)
    } else {
        digits(n as nat)
    }
}

fn digit_char(d: u64) -> (c: char)
    requires
        d < 10,
    ensures
        c == digit(d as nat),
{
    (48u8 + d as u8) as char
}

fn push_digits(s: &mut String, n: u64)
    ensures
        final(s)@ == old(s)@ + digits(n as nat),
    decreases n,
{
    if n < 10 {
        s.push(digit_char(n));
        assert(s@ == old(s)@ + digits(n as nat));
    } else {
        push_digits(s, n / 10);
        s.push(digit_char(n % 10));
        assert(s@ == old(s)@ + digits(n as nat));
    }
}

/// A natural number in decimal notation.
pub fn decimal_u64(n: u64) -> (r: String)
    ensures
        r@ == decimal(n as int),
{
    let mut s = String::new();
    push_digits(&mut s, n);
    assert(s@ == digits(n as nat));
    s
}

/// An integer in decimal notation.
pub fn decimal_i64(n: i64) -> (r: String)
    ensures
        r@ == decimal(n as int),
{
    let mut s = String::new();
    if n < 0 {
        s.push('-');
        let m: u64 = if n == i64::MIN {
            0x8000_0000_0000_0000
        } else {
            (-n) as u64
        };
        push_digits(&mut s, m);
        assert(s@ == decimal(n as int));
    } else {
        push_digits(&mut s, n as u64);
        assert(s@ == digits(n as nat));
    }
    s
}

/// The lower-case hexadecimal digit of a number below sixteen.
pub open spec fn hex_digit(d: nat) -> char {
    if d < 10 {
        digit(d)
    } else {
        (('a' as u32) + d - 10) as char
    }
}

/// The last `width` hexadecimal digits of `n`, with leading zeros.
pub open spec fn hex(n: nat, width: nat) -> Seq<char>
    decreases width,
{
    if width == 0 {
        Seq::empty()
    } else {
        hex(n / 16, (width - 1) as nat).push(hex_digit(n % 16))
    }
}

fn push_hex(s: &mut String, n: u64, width: usize)
    ensures
        final(s)@ == old(s)@ + hex(n as nat, width as nat),
    decreases width,
{
    if width > 0 {
        push_hex(s, n / 16, width - 1);
        let d: u64 = n % 16;
        if d < 10 {
            s.push(digit_char(d));
        } else {
            s.push((97u8 + (d - 10) as u8) as char);
        }
    }
    assert(s@ == old(s)@ + hex(n as nat, width as nat));
}

/// `n` in sixteen lower-case hexadecimal digits.
pub fn hex_16(n: u64) -> (r: String)
    ensures
        r@ == hex(n as nat, 16),
{
    let mut s = String::new();
    push_hex(&mut s, n, 16);
    assert(s@ == hex(n as nat, 16));
    s
}

/// Whether `c` is one of the ten digits.
pub open spec fn is_digit(c: char) -> bool {
    '0' <= c <= '9'
}

/// Whether `s` holds digits only.
pub open spec fn all_digits(s: Seq<char>) -> bool {
    forall|i: int| 0 <= i < s.len() ==> is_digit(#[trigger] s[i])
}

/// The number that a row of digits writes.
pub open spec fn number(s: Seq<char>) -> nat
    decreases s.len(),
{
    if s.len() == 0 {
        0
    } else {
        number(s.drop_last()) * 10 + ((s.last() as u32) - ('0' as u32)) as nat
    }
}

/// The integer that `s` writes: an optional sign, then one digit or more, within
/// the range of `i64`.
pub open spec fn parsed(s: Seq<char>) -> Option<int> {
    let signed = s.len() > 0 && (s[0] == '-' || s[0] == '+');
    let body = if signed {
        s.skip(1)
    } else {
        s
    };
    let n = if signed && s[0] == '-' {
        -(number(body) as int)
    } else {
        number(body) as int
    };
    if body.len() > 0 && all_digits(body) && i64::MIN <= n <= i64::MAX {
        Some(n)
    } else {
        None
    }
}

proof fn lemma_number_grows(s: Seq<char>, i: int)
    requires
        all_digits(s),
        0 <= i <= s.len(),
    ensures
        number(s.take(i)) <= number(s),
    decreases s.len() - i,
{
    if i < s.len() {
        lemma_number_grows(s, i + 1);
        assert(s.take(i + 1).drop_last() == s.take(i));
        assert(is_digit(s[i]));
    } else {
        assert(s.take(i) == s);
    }
}

/// The integer that `s` writes, if it writes one.
pub fn parse_i64(s: &[char]) -> (r: Option<i64>)
    ensures
        match r {
            Some(n) => parsed(s@) == Some(n as int),
            None => parsed(s@) is None,
        },
{
    let len = s.len();
    if len == 0 {
        return None;
    }
    let negative: bool = s[0] == '-';
    let start: usize = if negative || s[0] == '+' {
        1
    } else {
        0
    };
    let ghost body = if start == 1 {
        s@.skip(1)
    } else {
        s@
    };
    if start == len {
        return None;
    }
    let mut acc: u64 = 0;
    let mut i: usize = start;
    while i < len
        invariant
            len == s.len(),
            start <= i <= len,
            start < len,
            start <= 1,
            body == s@.skip(start as int),
            negative == (s@[0] == '-'),
            (start == 1) == (s@[0] == '-' || s@[0] == '+'),
            body == (if start == 1 { s@.skip(1) } else { s@ }),
            acc == number(body.take(i - start)),
            acc <= 0x8000_0000_0000_0000,
            all_digits(body.take(i - start)),
        decreases len - i,
    {
        let c: char = s[i];
        let ghost k = i - start;
        assert(body[k] == c);
        assert(body.take(k + 1).drop_last() == body.take(k));
        if c < '0' || c > '9' {
            assert(!is_digit(body[k]));
            return None;
        }
        let d: u64 = (c as u32 - '0' as u32) as u64;
        let wide: u128 = acc as u128 * 10 + d as u128;
        assert(wide == number(body.take(k + 1)));
        if wide > 0x8000_0000_0000_0000 {
            proof {
                if all_digits(body) {
                    lemma_number_grows(body, k + 1);
                }
            }
            return None;
        }
        acc = wide as u64;
        i += 1;
        assert forall|j: int| 0 <= j < body.take(k + 1).len() implies is_digit(
            #[trigger] body.take(k + 1)[j],
        ) by {
            if j < k {
                assert(body.take(k)[j] == body.take(k + 1)[j]);
            }
        }
    }
    assert(body.take(len - start) == body);
    if negative {
        if acc == 0x8000_0000_0000_0000 {
            Some(i64::MIN)
        } else {
            Some(-(acc as i64))
        }
    } else if acc == 0x8000_0000_0000_0000 {
        None
    } else {
        Some(acc as i64)
    }
}

proof fn lemma_digits_read_back(n: nat)
    ensures
        digits(n).len() > 0,
        all_digits(digits(n)),
        number(digits(n)) == n,
    decreases n,
{
    if n >= 10 {
        lemma_digits_read_back(n / 10);
        let s = digits(n);
        assert(s.drop_last() == digits(n / 10));
        assert forall|i: int| 0 <= i < s.len() implies is_digit(#[trigger] s[i]) by {
            if i < s.len() - 1 {
                assert(s.drop_last()[i] == s[i]);
            }
        }
    } else {
        let s = digits(n);
        assert(s.drop_last() =~= Seq::<char>::empty());
        assert(number(s.drop_last()) == 0);
    }
}

/// Every `i64` is read back from its decimal notation.
pub proof fn law_decimal_reads_back(n: i64)
    ensures
        parsed(decimal(n as int)) == Some(n as int),
{
    if n < 0 {
        lemma_digits_read_back((-n) as nat);
        assert(decimal(n as int).skip(1) == digits((-n) as nat));
    } else {
        lemma_digits_read_back(n as nat);
        assert(is_digit(digits(n as nat)[0]));
    }
}

/// Decimal notation holds a sign and digits, nothing else.
pub proof fn lemma_decimal_chars(n: int, c: char)
    requires
        !is_digit(c),
        c != '-',
    ensures
        !decimal(n).contains(c),
{
    let m = if n < 0 {
        (-n) as nat
    } else {
        n as nat
    };
    lemma_digits_read_back(m);
    if decimal(n).contains(c) {
        let i = decimal(n).index_of(c);
        if n < 0 {
            if i > 0 {
                assert(digits(m)[i - 1] == c);
            }
        } else {
            assert(digits(m)[i] == c);
        }
    }
}

/// The place of the last `c` in `s`, or -1.
pub open spec fn last_place(s: Seq<char>, c: char) -> int
    decreases s.len(),
{
    if s.len() == 0 {
        -1
    } else if s.last() == c {
        s.len() - 1
    } else {
        last_place(s.drop_last(), c)
    }
}

/// Where `c` last stands, and that it does not stand behind that place.
pub proof fn lemma_last_place(s: Seq<char>, c: char)
    ensures
        -1 <= last_place(s, c) < s.len(),
        last_place(s, c) >= 0 ==> s[last_place(s, c)] == c,
        forall|i: int| last_place(s, c) < i < s.len() ==> s[i] != c,
    decreases s.len(),
{
    if s.len() > 0 && s.last() != c {
        lemma_last_place(s.drop_last(), c);
        assert forall|i: int| last_place(s, c) < i < s.len() implies s[i] != c by {
            if i < s.len() - 1 {
                assert(s.drop_last()[i] == s[i]);
            }
        }
    }
}

/// In `head`, `c`, `tail` the last `c` is the one in the middle, where `tail` holds
/// none.
pub proof fn lemma_last_place_of_join(head: Seq<char>, c: char, tail: Seq<char>)
    requires
        !tail.contains(c),
    ensures
        last_place(head.push(c) + tail, c) == head.len(),
        (head.push(c) + tail).take(head.len() as int) == head,
        (head.push(c) + tail).skip(head.len() as int + 1) == tail,
{
    let s = head.push(c) + tail;
    lemma_last_place(s, c);
    assert(s[head.len() as int] == c);
    let p = last_place(s, c);
    if p > head.len() {
        assert(tail[p - head.len() - 1] == c);
        assert(tail.contains(c));
    }
    assert(s.take(head.len() as int) == head);
    assert(s.skip(head.len() as int + 1) == tail);
}

/// The place of the last `c` among the first `len` characters of `s`.
pub fn find_last(s: &[char], len: usize, c: char) -> (r: Option<usize>)
    requires
        len <= s.len(),
    ensures
        match r {
            Some(i) => i == last_place(s@.take(len as int), c) && i < len,
            None => last_place(s@.take(len as int), c) == -1,
        },
{
    let mut i: usize = len;
    while i > 0
        invariant
            i <= len,
            len <= s.len(),
            last_place(s@.take(len as int), c) == last_place(s@.take(i as int), c),
        decreases i,
    {
        assert(s@.take(i as int).drop_last() == s@.take(i - 1));
        if s[i - 1] == c {
            return Some(i - 1);
        }
        i -= 1;
    }
    None
}

/// The pieces of `s` between the places where `c` stands.
pub open spec fn split_on(s: Seq<char>, c: char) -> Seq<Seq<char>>
    decreases s.len(),
{
    let i = last_place(s, c);
    if 0 <= i < s.len() {
        split_on(s.take(i), c).push(s.skip(i + 1))
    } else {
        seq![s]
    }
}

/// The pieces of `s` between the places where `c` stands.
pub fn split(s: &[char], c: char) -> (r: Vec<Vec<char>>)
    ensures
        r.len() == split_on(s@, c).len(),
        forall|i: int| 0 <= i < r.len() ==> (#[trigger] r[i])@ == split_on(s@, c)[i],
{
    let mut parts: Vec<Vec<char>> = Vec::new();
    split_prefix(s, s.len(), c, &mut parts);
    assert(s@.take(s.len() as int) == s@);
    parts
}

fn split_prefix(s: &[char], len: usize, c: char, parts: &mut Vec<Vec<char>>)
    requires
        len <= s.len(),
        old(parts).len() == 0,
    ensures
        final(parts).len() == split_on(s@.take(len as int), c).len(),
        forall|i: int|
            0 <= i < final(parts).len() ==> (#[trigger] final(parts)[i])@ == split_on(
                s@.take(len as int),
                c,
            )[i],
    decreases len,
{
    match find_last(s, len, c) {
        Some(i) => {
            assert(s@.take(len as int).take(i as int) == s@.take(i as int));
            assert(s@.take(len as int).skip(i + 1) == s@.subrange(i + 1, len as int));
            split_prefix(s, i, c, parts);
            parts.push(slice_of(s, i + 1, len));
        },
        None => {
            assert(s@.take(len as int) == s@.subrange(0, len as int));
            parts.push(slice_of(s, 0, len));
        },
    }
}

fn slice_of(s: &[char], from: usize, to: usize) -> (r: Vec<char>)
    requires
        from <= to <= s.len(),
    ensures
        r@ == s@.subrange(from as int, to as int),
{
    let mut v: Vec<char> = Vec::new();
    let mut i: usize = from;
    while i < to
        invariant
            from <= i <= to <= s.len(),
            v@ == s@.subrange(from as int, i as int),
        decreases to - i,
    {
        v.push(s[i]);
        i += 1;
        assert(s@.subrange(from as int, i as int) == s@.subrange(from as int, i - 1).push(
            s@[i - 1],
        ));
    }
    v
}

/// The characters from `from` to `to` as a string.
pub fn piece(s: &[char], from: usize, to: usize) -> (r: String)
    requires
        from <= to <= s.len(),
    ensures
        r@ == s@.subrange(from as int, to as int),
{
    let v = slice_of(s, from, to);
    string_of(v.as_slice())
}

/// Joining a piece without `c` to the right adds one piece to the split.
pub proof fn lemma_split_of_join(head: Seq<char>, c: char, tail: Seq<char>)
    requires
        !tail.contains(c),
    ensures
        split_on(head.push(c) + tail, c) == split_on(head, c).push(tail),
{
    lemma_last_place_of_join(head, c, tail);
}

/// Text without `c` is one piece.
pub proof fn lemma_split_of_piece(s: Seq<char>, c: char)
    requires
        !s.contains(c),
    ensures
        split_on(s, c) == seq![s],
{
    lemma_last_place(s, c);
    if last_place(s, c) >= 0 {
        assert(s.contains(s[last_place(s, c)]));
    }
}

} // verus!
