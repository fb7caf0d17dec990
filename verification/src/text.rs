//! Characters, strings and numbers: the text toolkit the parsers share.

use vstd::prelude::*;

verus! {

/// Appends one character to a `String` (`String::push`).
///
/// Trusted: the new contents are the old contents followed by `c`.
#[verifier::external_body]
pub(crate) fn push_char(s: &mut String, c: char)
    ensures
        final(s)@ == old(s)@.push(c),
{
    s.push(c);
}

/// The characters of a string slice, in order.
pub fn chars_of(s: &str) -> (v: Vec<char>)
    ensures
        v@ == s@,
{
    let mut v: Vec<char> = Vec::new();
    for c in it: s.chars()
        invariant
            it.seq() == s@,
            v@ == it.seq().take(it.index() as int),
    {
        v.push(c);
    }
    v
}

/// A `String` made of `v[start..end]`.
pub fn string_of(v: &Vec<char>, start: usize, end: usize) -> (s: String)
    requires
        start <= end <= v.len(),
    ensures
        s@ == v@.subrange(start as int, end as int),
{
    let mut s = String::new();
    let mut i = start;
    while i < end
        invariant
            start <= i <= end <= v.len(),
            s@ == v@.subrange(start as int, i as int),
        decreases end - i,
    {
        push_char(&mut s, v[i]);
        i = i + 1;
        assert(s@ =~= v@.subrange(start as int, i as int));
    }
    s
}

/// Appends every character of `v` to `s`.
pub fn push_chars(s: &mut String, v: &Vec<char>)
    ensures
        final(s)@ == old(s)@ + v@,
{
    let mut i: usize = 0;
    while i < v.len()
        invariant
            0 <= i <= v.len(),
            s@ == old(s)@ + v@.take(i as int),
        decreases v.len() - i,
    {
        push_char(s, v[i]);
        i = i + 1;
        assert(s@ =~= old(s)@ + v@.take(i as int));
    }
    assert(v@.take(v.len() as int) =~= v@);
}

/// A `String` holding exactly `chars`.
pub fn string_from(chars: &[char]) -> (s: String)
    ensures
        s@ == chars@,
{
    let mut s = String::new();
    let mut i: usize = 0;
    while i < chars.len()
        invariant
            0 <= i <= chars@.len(),
            s@ == chars@.take(i as int),
        decreases chars.len() - i,
    {
        push_char(&mut s, chars[i]);
        i = i + 1;
        assert(s@ =~= chars@.take(i as int));
    }
    assert(chars@.take(chars@.len() as int) =~= chars@);
    s
}

/// Whether two texts are equal, character for character.
pub fn same_text(a: &str, b: &str) -> (r: bool)
    ensures
        r == (a@ == b@),
{
    let x = chars_of(a);
    let y = chars_of(b);
    if x.len() != y.len() {
        return false;
    }
    let mut i: usize = 0;
    while i < x.len()
        invariant
            x@ == a@,
            y@ == b@,
            x@.len() == y@.len(),
            0 <= i <= x@.len(),
            forall|k: int| 0 <= k < i ==> x@[k] == y@[k],
        decreases x.len() - i,
    {
        if x[i] != y[i] {
            assert(x@[i as int] != y@[i as int]);
            return false;
        }
        i = i + 1;
    }
    assert(x@ =~= y@);
    true
}

/// Appends the characters of a string slice to `s`.
pub fn push_str(s: &mut String, t: &str)
    ensures
        final(s)@ == old(s)@ + t@,
{
    let v = chars_of(t);
    push_chars(s, &v);
}

// ---------------------------------------------------------------------------
// UTF-8 sizes
// ---------------------------------------------------------------------------

/// The number of UTF-8 bytes of a character.
pub open spec fn utf8_width(c: char) -> nat {
    if (c as u32) < 0x80 {
        1
    } else if (c as u32) < 0x800 {
        2
    } else if (c as u32) < 0x10000 {
        3
    } else {
        4
    }
}

/// The number of UTF-8 bytes of a text (what `str::len` counts).
pub open spec fn byte_len(s: Seq<char>) -> nat
    decreases s.len(),
{
    if s.len() == 0 {
        0
    } else {
        byte_len(s.drop_last()) + utf8_width(s.last())
    }
}

pub fn utf8_width_of(c: char) -> (w: usize)
    ensures
        w == utf8_width(c),
{
    let u = c as u32;
    if u < 0x80 {
        1
    } else if u < 0x800 {
        2
    } else if u < 0x10000 {
        3
    } else {
        4
    }
}

pub proof fn lemma_byte_len_grows(s: Seq<char>, i: int, j: int)
    requires
        0 <= i < j <= s.len(),
    ensures
        byte_len(s.take(i)) < byte_len(s.take(j)),
    decreases j,
{
    assert(s.take(j).drop_last() =~= s.take(j - 1));
    if i < j - 1 {
        lemma_byte_len_grows(s, i, j - 1);
    }
}

pub proof fn lemma_byte_len_prefix(s: Seq<char>, i: int)
    requires
        0 <= i <= s.len(),
    ensures
        byte_len(s.take(i)) <= byte_len(s),
{
    if i < s.len() {
        lemma_byte_len_grows(s, i, s.len() as int);
    }
    assert(s.take(s.len() as int) =~= s);
}

/// A text takes at most four bytes per character.
pub proof fn lemma_byte_len_bound(s: Seq<char>)
    ensures
        byte_len(s) <= 4 * s.len(),
    decreases s.len(),
{
    if s.len() > 0 {
        lemma_byte_len_bound(s.drop_last());
    }
}

/// The number of characters of the longest prefix of `s` that takes at most
/// `max` bytes.
pub open spec fn fit_len(s: Seq<char>, max: nat) -> nat
    decreases s.len(),
{
    if s.len() == 0 || byte_len(s) <= max {
        s.len()
    } else {
        fit_len(s.drop_last(), max)
    }
}

/// A prefix of `i` characters that fits in `max` bytes, and that one more
/// character would not fit, is the longest prefix that fits.
pub proof fn lemma_fit_len(s: Seq<char>, max: nat, i: int)
    requires
        0 <= i <= s.len(),
        byte_len(s.take(i)) <= max,
        i == s.len() || byte_len(s.take(i + 1)) > max,
    ensures
        fit_len(s, max) == i,
    decreases s.len(),
{
    if s.len() == 0 || byte_len(s) <= max {
        if i < s.len() {
            lemma_byte_len_prefix(s, i + 1);
        }
    } else {
        if i == s.len() {
            assert(s.take(i) =~= s);
        }
        assert(s.drop_last().take(i) =~= s.take(i));
        if i + 1 <= s.len() - 1 {
            assert(s.drop_last().take(i + 1) =~= s.take(i + 1));
        }
        lemma_fit_len(s.drop_last(), max, i);
    }
}

// ---------------------------------------------------------------------------
// Decimal text of numbers
// ---------------------------------------------------------------------------

/// The ASCII digit for `d` (0 ..= 9).
pub open spec fn digit_char(d: nat) -> char {
    ((d + 48) as u32) as char
}

/// The decimal text of a natural number: no sign, no leading zeros.
pub open spec fn dec_nat(n: nat) -> Seq<char>
    decreases n,
{
    if n < 10 {
        seq![digit_char(n)]
    } else {
        dec_nat(n / 10).push(digit_char(n % 10))
    }
}

/// The decimal text of an integer: a `-` in front of negative numbers.
pub open spec fn dec_int(n: int) -> Seq<char> {
    if n < 0 {
        seq!['-'] + dec_nat((-n) as nat)
    } else {
        dec_nat(n as nat)
    }
}

fn digit_of(d: u64) -> (c: char)
    requires
        d < 10,
    ensures
        c == digit_char(d as nat),
{
    if d == 0 { '0' }
    else if d == 1 { '1' }
    else if d == 2 { '2' }
    else if d == 3 { '3' }
    else if d == 4 { '4' }
    else if d == 5 { '5' }
    else if d == 6 { '6' }
    else if d == 7 { '7' }
    else if d == 8 { '8' }
    else { '9' }
}

/// Powers of ten.
pub open spec fn pow10(k: nat) -> nat
    decreases k,
{
    if k == 0 {
        1
    } else {
        10 * pow10((k - 1) as nat)
    }
}

/// A number below `10^k` has at most `k` decimal digits.
pub proof fn lemma_dec_nat_len(n: nat, k: nat)
    requires
        k >= 1,
        n < pow10(k),
    ensures
        dec_nat(n).len() <= k,
    decreases n,
{
    if n >= 10 {
        if k == 1 {
            assert(pow10(1) == 10 * pow10(0));
        }
        let p = pow10((k - 1) as nat);
        assert(n / 10 < p) by (nonlinear_arith)
            requires
                n < 10 * p,
        ;
        lemma_dec_nat_len(n / 10, (k - 1) as nat);
    }
}

/// Appends the decimal text of `n`.
pub fn push_decimal(s: &mut String, n: u64)
    ensures
        final(s)@ == old(s)@ + dec_nat(n as nat),
    decreases n,
{
    if n >= 10 {
        push_decimal(s, n / 10);
    }
    let c = digit_of(n % 10);
    push_char(s, c);
    assert(s@ =~= old(s)@ + dec_nat(n as nat));
}

/// Appends the decimal text of a signed number.
pub fn push_signed_decimal(s: &mut String, n: i64)
    requires
        n > i64::MIN,
    ensures
        final(s)@ == old(s)@ + dec_int(n as int),
{
    if n < 0 {
        push_char(s, '-');
        let m: u64 = (-n) as u64;
        push_decimal(s, m);
        assert(s@ =~= old(s)@ + dec_int(n as int));
    } else {
        push_decimal(s, n as u64);
    }
}


// ---------------------------------------------------------------------------
// Reading numbers, as `str::parse` and `from_str_radix` read them
// ---------------------------------------------------------------------------

/// The value of a digit character in bases up to 36 (as `char::to_digit`):
/// 0-9, then a/A = 10 up to z/Z = 35; 36 for anything else.
pub open spec fn digit_val(c: char) -> nat {
    if '0' <= c && c <= '9' {
        (c as int - 48) as nat
    } else if 'a' <= c && c <= 'z' {
        (c as int - 97 + 10) as nat
    } else if 'A' <= c && c <= 'Z' {
        (c as int - 65 + 10) as nat
    } else {
        36
    }
}

/// Every character of `s` is a digit of base `radix`.
pub open spec fn all_digits(s: Seq<char>, radix: nat) -> bool {
    forall|i: int| 0 <= i < s.len() ==> #[trigger] digit_val(s[i]) < radix
}

/// The value of a string of digits, most significant first.
pub open spec fn digits_value(s: Seq<char>, radix: nat) -> nat
    decreases s.len(),
{
    if s.len() == 0 {
        0
    } else {
        digits_value(s.drop_last(), radix) * radix + digit_val(s.last())
    }
}

/// What an unsigned integer type up to `max` reads from `s` in base `radix`:
/// an optional `+`, then at least one digit, and a value that fits.
pub open spec fn parse_unsigned(s: Seq<char>, radix: nat, max: nat) -> Option<nat> {
    let d = if s.len() > 0 && s[0] == '+' { s.drop_first() } else { s };
    if d.len() > 0 && all_digits(d, radix) && digits_value(d, radix) <= max {
        Some(digits_value(d, radix))
    } else {
        None
    }
}

/// What a signed decimal integer type with range `-(max + 1) ..= max` reads
/// from `s`: an optional `+` or `-`, then at least one digit, in range.
pub open spec fn parse_signed(s: Seq<char>, max: nat) -> Option<int> {
    if s.len() > 0 && s[0] == '-' {
        let d = s.drop_first();
        if d.len() > 0 && all_digits(d, 10) && digits_value(d, 10) <= max + 1 {
            Some(-(digits_value(d, 10) as int))
        } else {
            None
        }
    } else {
        match parse_unsigned(s, 10, max) {
            Some(v) => Some(v as int),
            None => None,
        }
    }
}

/// A value that reads as a number, or 0 when it does not.
pub open spec fn or_zero(r: Option<nat>) -> nat {
    match r {
        Some(v) => v,
        None => 0,
    }
}

proof fn lemma_digits_value_prefix(s: Seq<char>, radix: nat, k: int)
    requires
        0 <= k <= s.len(),
        radix >= 1,
    ensures
        digits_value(s.take(k), radix) <= digits_value(s, radix),
    decreases s.len(),
{
    if k < s.len() {
        assert(s.drop_last().take(k) =~= s.take(k));
        lemma_digits_value_prefix(s.drop_last(), radix, k);
        let a = digits_value(s.drop_last(), radix);
        assert(a * radix >= a) by (nonlinear_arith)
            requires
                radix >= 1,
        ;
    } else {
        assert(s.take(k) =~= s);
    }
}

fn digit_value_of(c: char) -> (r: u64)
    ensures
        r == digit_val(c),
{
    if '0' <= c && c <= '9' {
        (c as u64) - 48
    } else if 'a' <= c && c <= 'z' {
        (c as u64) - 97 + 10
    } else if 'A' <= c && c <= 'Z' {
        (c as u64) - 65 + 10
    } else {
        36
    }
}

/// Reads `v[start..end]` as digits of base `radix`: the value when every
/// character is a digit and the value is at most `max`, else `None`.
pub fn parse_digits(v: &Vec<char>, start: usize, end: usize, radix: u64, max: u64) -> (r: Option<u64>)
    requires
        start <= end <= v.len(),
        2 <= radix <= 36,
    ensures
        ({
            let d = v@.subrange(start as int, end as int);
            r == (if all_digits(d, radix as nat) && digits_value(d, radix as nat) <= max {
                Some(digits_value(d, radix as nat) as u64)
            } else {
                None
            })
        }),
{
    let ghost d = v@.subrange(start as int, end as int);
    let mut acc: u64 = 0;
    let mut i = start;
    assert(d.take(0) =~= Seq::<char>::empty());
    while i < end
        invariant
            start <= i <= end <= v.len(),
            d == v@.subrange(start as int, end as int),
            2 <= radix <= 36,
            all_digits(d.take(i - start), radix as nat),
            acc as nat == digits_value(d.take(i - start), radix as nat),
            acc <= max,
        decreases end - i,
    {
        let ghost k = (i - start) as int;
        let c = v[i];
        assert(c == d[k]);
        let dv = digit_value_of(c);
        if dv >= radix {
            assert(!all_digits(d, radix as nat)) by {
                assert(digit_val(d[k]) >= radix);
            }
            return None;
        }
        assert(d.take(k + 1).drop_last() =~= d.take(k));
        assert(d.take(k + 1).last() == c);
        if acc > max / radix {
            assert(acc * radix + dv > max) by (nonlinear_arith)
                requires
                    acc > max / radix,
                    radix >= 2,
            ;
            proof {
                lemma_digits_value_prefix(d, radix as nat, k + 1);
            }
            return None;
        }
        assert(acc * radix <= max) by (nonlinear_arith)
            requires
                acc <= max / radix,
                radix >= 2,
        ;
        let scaled = acc * radix;
        if dv > max || scaled > max - dv {
            proof {
                lemma_digits_value_prefix(d, radix as nat, k + 1);
            }
            return None;
        }
        acc = scaled + dv;
        i = i + 1;
        assert forall|j: int| 0 <= j < d.take(k + 1).len() implies #[trigger] digit_val(
            d.take(k + 1)[j],
        ) < radix by {
            if j < k {
                assert(d.take(k + 1)[j] == d.take(k)[j]);
            }
        }
    }
    assert(d.take(end - start) =~= d);
    Some(acc)
}

/// Reads `v[start..end]` as an unsigned number of base `radix` up to `max`,
/// with the rules of `from_str_radix`: an optional `+`, then digits.
pub fn parse_unsigned_range(v: &Vec<char>, start: usize, end: usize, radix: u64, max: u64) -> (r:
    Option<u64>)
    requires
        start <= end <= v.len(),
        2 <= radix <= 36,
    ensures
        r == (match parse_unsigned(v@.subrange(start as int, end as int), radix as nat, max as nat) {
            Some(n) => Some(n as u64),
            None => None,
        }),
{
    let ghost s = v@.subrange(start as int, end as int);
    let mut first = start;
    if start < end && v[start] == '+' {
        first = start + 1;
        assert(s.drop_first() =~= v@.subrange(first as int, end as int));
    } else {
        assert(s =~= v@.subrange(first as int, end as int));
    }
    if first == end {
        return None;
    }
    parse_digits(v, first, end, radix, max)
}

/// Reads `v[start..end]` as a signed decimal number in
/// `-(max + 1) ..= max`, with the rules of `str::parse` for signed types.
pub fn parse_signed_range(v: &Vec<char>, start: usize, end: usize, max: u64) -> (r: Option<i64>)
    requires
        start <= end <= v.len(),
        max < i64::MAX,
    ensures
        r == (match parse_signed(v@.subrange(start as int, end as int), max as nat) {
            Some(n) => Some(n as i64),
            None => None,
        }),
{
    let ghost s = v@.subrange(start as int, end as int);
    if start < end && v[start] == '-' {
        assert(s.drop_first() =~= v@.subrange(start + 1, end as int));
        if start + 1 == end {
            return None;
        }
        match parse_digits(v, start + 1, end, 10, max + 1) {
            Some(m) => Some(-(m as i64)),
            None => None,
        }
    } else {
        match parse_unsigned_range(v, start, end, 10, max) {
            Some(m) => Some(m as i64),
            None => None,
        }
    }
}


proof fn lemma_digit_char(d: nat)
    requires
        d < 10,
    ensures
        digit_val(digit_char(d)) == d,
        '0' <= digit_char(d) <= '9',
{
}

/// Decimal text is all digits, never empty, and reads back as its number.
pub proof fn lemma_dec_nat(n: nat)
    ensures
        dec_nat(n).len() > 0,
        all_digits(dec_nat(n), 10),
        digits_value(dec_nat(n), 10) == n,
        '0' <= dec_nat(n)[0] <= '9',
    decreases n,
{
    if n < 10 {
        lemma_digit_char(n);
        assert(dec_nat(n).drop_last() =~= Seq::<char>::empty());
        assert(digits_value(Seq::<char>::empty(), 10) == 0);
        assert(dec_nat(n).last() == digit_char(n));
    } else {
        lemma_dec_nat(n / 10);
        lemma_digit_char(n % 10);
        let s = dec_nat(n);
        assert(s.drop_last() =~= dec_nat(n / 10));
        assert((n / 10) * 10 + n % 10 == n) by (nonlinear_arith);
        assert(s.last() == digit_char(n % 10));
        assert(digits_value(s, 10) == digits_value(dec_nat(n / 10), 10) * 10 + (n % 10));
        assert forall|i: int| 0 <= i < s.len() implies #[trigger] digit_val(s[i]) < 10 by {
            if i < s.len() - 1 {
                assert(s[i] == dec_nat(n / 10)[i]);
            }
        }
    }
}

/// Reading the decimal text of a number that fits gives the number back.
pub proof fn lemma_parse_dec_nat(n: nat, max: nat)
    requires
        n <= max,
    ensures
        parse_unsigned(dec_nat(n), 10, max) == Some(n),
{
    lemma_dec_nat(n);
}

/// Reading the signed decimal text of a number in range gives it back.
pub proof fn lemma_parse_dec_int(n: int, max: nat)
    requires
        -(max + 1) <= n <= max,
    ensures
        parse_signed(dec_int(n), max) == Some(n),
{
    if n < 0 {
        lemma_dec_nat((-n) as nat);
        assert(dec_int(n).drop_first() =~= dec_nat((-n) as nat));
    } else {
        lemma_dec_nat(n as nat);
    }
}

// ---------------------------------------------------------------------------
// Splitting text
// ---------------------------------------------------------------------------

/// The pieces of `s` between occurrences of `sep`, as `str::split` yields
/// them: `k` separators give `k + 1` pieces, empty ones included.
pub open spec fn split_on(s: Seq<char>, sep: char) -> Seq<Seq<char>>
    decreases s.len(),
{
    if s.len() == 0 {
        seq![Seq::<char>::empty()]
    } else {
        let p = split_on(s.drop_last(), sep);
        if s.last() == sep {
            p.push(Seq::<char>::empty())
        } else {
            p.update(p.len() - 1, p.last().push(s.last()))
        }
    }
}

pub proof fn lemma_split_on_nonempty(s: Seq<char>, sep: char)
    ensures
        split_on(s, sep).len() >= 1,
    decreases s.len(),
{
    if s.len() > 0 {
        lemma_split_on_nonempty(s.drop_last(), sep);
    }
}

/// Splitting a text at an occurrence of the separator splits it into the
/// pieces of the part before and the pieces of the part after.
pub proof fn lemma_split_concat(a: Seq<char>, b: Seq<char>, sep: char)
    ensures
        split_on(a + seq![sep] + b, sep) == split_on(a, sep) + split_on(b, sep),
    decreases b.len(),
{
    let x = a + seq![sep] + b;
    if b.len() == 0 {
        assert(x.drop_last() =~= a);
        assert(split_on(b, sep) =~= seq![Seq::<char>::empty()]);
        assert(split_on(x, sep) =~= split_on(a, sep) + split_on(b, sep));
    } else {
        lemma_split_concat(a, b.drop_last(), sep);
        assert(x.drop_last() =~= a + seq![sep] + b.drop_last());
        lemma_split_on_nonempty(b.drop_last(), sep);
        lemma_split_on_nonempty(a, sep);
        assert(split_on(x, sep) =~= split_on(a, sep) + split_on(b, sep));
    }
}

/// A text without the separator is a single piece.
pub proof fn lemma_split_no_sep(s: Seq<char>, sep: char)
    requires
        forall|i: int| 0 <= i < s.len() ==> s[i] != sep,
    ensures
        split_on(s, sep) == seq![s],
    decreases s.len(),
{
    if s.len() > 0 {
        lemma_split_no_sep(s.drop_last(), sep);
        assert(s.drop_last().push(s.last()) =~= s);
        assert(split_on(s, sep) =~= seq![s]);
    } else {
        assert(s =~= Seq::<char>::empty());
        assert(split_on(s, sep) =~= seq![s]);
    }
}

/// The texts that index ranges pick out of `v`.
pub open spec fn range_views(v: Seq<char>, r: Seq<(usize, usize)>) -> Seq<Seq<char>> {
    Seq::new(r.len(), |j: int| v.subrange(r[j].0 as int, r[j].1 as int))
}

/// Every range lies inside `start..end`.
pub open spec fn ranges_within(r: Seq<(usize, usize)>, start: int, end: int) -> bool {
    forall|j: int| 0 <= j < r.len() ==> start <= #[trigger] r[j].0 <= r[j].1 <= end
}

/// Index ranges of the pieces of `v[start..end]` between occurrences of `sep`.
pub fn split_ranges(v: &Vec<char>, start: usize, end: usize, sep: char) -> (r: Vec<(usize, usize)>)
    requires
        start <= end <= v.len(),
    ensures
        ranges_within(r@, start as int, end as int),
        range_views(v@, r@) == split_on(v@.subrange(start as int, end as int), sep),
{
    let mut r: Vec<(usize, usize)> = Vec::new();
    let mut cur = start;
    let mut i = start;
    assert(v@.subrange(start as int, start as int) =~= Seq::<char>::empty());
    while i < end
        invariant
            start <= cur <= i <= end <= v.len(),
            ranges_within(r@, start as int, i as int),
            range_views(v@, r@).push(v@.subrange(cur as int, i as int)) == split_on(
                v@.subrange(start as int, i as int),
                sep,
            ),
        decreases end - i,
    {
        let ghost t = v@.subrange(start as int, i as int);
        let ghost t1 = v@.subrange(start as int, i + 1);
        assert(t1.drop_last() =~= t);
        assert(t1.last() == v@[i as int]);
        proof {
            lemma_split_on_nonempty(t, sep);
        }
        if v[i] == sep {
            r.push((cur, i));
            cur = i + 1;
            i = i + 1;
            assert(v@.subrange(cur as int, i as int) =~= Seq::<char>::empty());
            assert(range_views(v@, r@).push(v@.subrange(cur as int, i as int)) =~= split_on(
                t1,
                sep,
            ));
        } else {
            let ghost old_r = r@;
            i = i + 1;
            assert(v@.subrange(cur as int, i as int) =~= v@.subrange(cur as int, i - 1).push(
                v@[i - 1],
            ));
            assert(range_views(v@, r@).push(v@.subrange(cur as int, i as int)) =~= split_on(
                t1,
                sep,
            ));
        }
    }
    r.push((cur, end));
    assert(range_views(v@, r@) =~= split_on(v@.subrange(start as int, end as int), sep));
    r
}


/// The `White_Space` characters of Unicode, the ones `char::is_whitespace`
/// accepts.
pub open spec fn is_white(c: char) -> bool {
    ('\u{9}' <= c && c <= '\u{d}') || c == ' ' || c == '\u{85}' || c == '\u{a0}' || c
        == '\u{1680}' || ('\u{2000}' <= c && c <= '\u{200a}') || c == '\u{2028}' || c
        == '\u{2029}' || c == '\u{202f}' || c == '\u{205f}' || c == '\u{3000}'
}

/// Whether `c` is whitespace (as `char::is_whitespace`).
pub fn is_whitespace(c: char) -> (b: bool)
    ensures
        b == is_white(c),
{
    ('\u{9}' <= c && c <= '\u{d}') || c == ' ' || c == '\u{85}' || c == '\u{a0}' || c
        == '\u{1680}' || ('\u{2000}' <= c && c <= '\u{200a}') || c == '\u{2028}' || c
        == '\u{2029}' || c == '\u{202f}' || c == '\u{205f}' || c == '\u{3000}'
}

/// Words of `s` read left to right: the finished words, and the word being
/// read when the text stops.
pub open spec fn words_acc(s: Seq<char>) -> (Seq<Seq<char>>, Seq<char>)
    decreases s.len(),
{
    if s.len() == 0 {
        (Seq::<Seq<char>>::empty(), Seq::<char>::empty())
    } else {
        let (ws, cur) = words_acc(s.drop_last());
        if is_white(s.last()) {
            if cur.len() > 0 {
                (ws.push(cur), Seq::<char>::empty())
            } else {
                (ws, Seq::<char>::empty())
            }
        } else {
            (ws, cur.push(s.last()))
        }
    }
}

/// The non-empty runs of non-whitespace in `s` (as `str::split_whitespace`).
pub open spec fn words(s: Seq<char>) -> Seq<Seq<char>> {
    let (ws, cur) = words_acc(s);
    if cur.len() > 0 {
        ws.push(cur)
    } else {
        ws
    }
}

/// Index ranges of the words of `v[start..end]`.
pub fn word_ranges(v: &Vec<char>, start: usize, end: usize) -> (r: Vec<(usize, usize)>)
    requires
        start <= end <= v.len(),
    ensures
        ranges_within(r@, start as int, end as int),
        range_views(v@, r@) == words(v@.subrange(start as int, end as int)),
{
    let mut r: Vec<(usize, usize)> = Vec::new();
    let mut cur = start;
    let mut i = start;
    let mut in_word = false;
    assert(v@.subrange(start as int, start as int) =~= Seq::<char>::empty());
    while i < end
        invariant
            start <= cur <= i <= end <= v.len(),
            ranges_within(r@, start as int, i as int),
            range_views(v@, r@) == words_acc(v@.subrange(start as int, i as int)).0,
            v@.subrange(cur as int, i as int) == words_acc(v@.subrange(start as int, i as int)).1,
            in_word == (cur < i),
        decreases end - i,
    {
        let ghost t1 = v@.subrange(start as int, i + 1);
        assert(t1.drop_last() =~= v@.subrange(start as int, i as int));
        assert(t1.last() == v@[i as int]);
        let c = v[i];
        if is_whitespace(c) {
            if in_word {
                r.push((cur, i));
                assert(range_views(v@, r@) =~= words_acc(t1).0);
            }
            i = i + 1;
            cur = i;
            assert(v@.subrange(cur as int, i as int) =~= Seq::<char>::empty());
            in_word = false;
        } else {
            i = i + 1;
            assert(v@.subrange(cur as int, i as int) =~= v@.subrange(cur as int, i - 1).push(c));
            in_word = true;
        }
    }
    if in_word {
        r.push((cur, end));
        assert(range_views(v@, r@) =~= words(v@.subrange(start as int, end as int)));
    }
    r
}

/// A line without its `\r` terminator part.
pub open spec fn strip_cr(t: Seq<char>) -> Seq<char> {
    if t.len() > 0 && t.last() == '\r' {
        t.drop_last()
    } else {
        t
    }
}

/// The lines of `s` as `str::lines` yields them: split at `\n`, a `\r`
/// right before a `\n` dropped, and no empty line after a final `\n`.
pub open spec fn lines(s: Seq<char>) -> Seq<Seq<char>> {
    let p = split_on(s, '\n');
    let q = if s.len() == 0 || s.last() == '\n' { p.drop_last() } else { p };
    Seq::new(q.len(), |i: int| if i < p.len() - 1 { strip_cr(q[i]) } else { q[i] })
}

/// Index ranges of the lines of `v[start..end]`.
pub fn line_ranges(v: &Vec<char>, start: usize, end: usize) -> (r: Vec<(usize, usize)>)
    requires
        start <= end <= v.len(),
    ensures
        ranges_within(r@, start as int, end as int),
        range_views(v@, r@) == lines(v@.subrange(start as int, end as int)),
{
    let ghost s = v@.subrange(start as int, end as int);
    let pieces = split_ranges(v, start, end, '\n');
    proof {
        lemma_split_on_nonempty(s, '\n');
    }
    let n = pieces.len();
    let keep = if start == end || v[end - 1] == '\n' { n - 1 } else { n };
    let ghost q = if s.len() == 0 || s.last() == '\n' { split_on(s, '\n').drop_last() } else { split_on(s, '\n') };
    assert(start < end ==> s.last() == v@[end - 1]);
    let mut r: Vec<(usize, usize)> = Vec::new();
    let mut i: usize = 0;
    while i < keep
        invariant
            0 <= i <= keep <= n,
            n == pieces@.len(),
            q.len() == keep,
            range_views(v@, pieces@) == split_on(s, '\n'),
            ranges_within(pieces@, start as int, end as int),
            forall|j: int| 0 <= j < keep ==> q[j] == split_on(s, '\n')[j],
            s == v@.subrange(start as int, end as int),
            start <= end <= v.len(),
            ranges_within(r@, start as int, end as int),
            r@.len() == i,
            forall|j: int|
                0 <= j < i ==> v@.subrange(r@[j].0 as int, r@[j].1 as int) == (if j < n - 1 {
                    strip_cr(q[j])
                } else {
                    q[j]
                }),
        decreases keep - i,
    {
        let (a, b) = pieces[i];
        assert(v@.subrange(a as int, b as int) == q[i as int]);
        if i < n - 1 && a < b && v[b - 1] == '\r' {
            r.push((a, b - 1));
            assert(v@.subrange(a as int, b - 1) =~= q[i as int].drop_last());
        } else {
            r.push((a, b));
        }
        i = i + 1;
    }
    assert(range_views(v@, r@) =~= lines(s));
    r
}

/// The first position of `c` in `s`, if it occurs.
pub open spec fn first_index(s: Seq<char>, c: char) -> Option<int>
    decreases s.len(),
{
    if s.len() == 0 {
        None
    } else {
        match first_index(s.drop_last(), c) {
            Some(i) => Some(i),
            None => if s.last() == c { Some(s.len() - 1) } else { None },
        }
    }
}

/// The position of the first `c` in `v[start..end]`, counted from `start`.
pub fn find_char(v: &Vec<char>, start: usize, end: usize, c: char) -> (r: Option<usize>)
    requires
        start <= end <= v.len(),
    ensures
        match first_index(v@.subrange(start as int, end as int), c) {
            Some(k) => r == Some((start + k) as usize),
            None => r is None,
        },
        r matches Some(i) ==> start <= i < end && v@[i as int] == c,
        first_index(v@.subrange(start as int, end as int), c) matches Some(k) ==> 0 <= k < end
            - start,
{
    proof {
        lemma_first_index_bounds(v@.subrange(start as int, end as int), c);
    }
    let mut i = start;
    assert(v@.subrange(start as int, start as int) =~= Seq::<char>::empty());
    while i < end
        invariant
            start <= i <= end <= v.len(),
            first_index(v@.subrange(start as int, i as int), c) is None,
        decreases end - i,
    {
        let ghost t1 = v@.subrange(start as int, i + 1);
        assert(t1.drop_last() =~= v@.subrange(start as int, i as int));
        if v[i] == c {
            proof {
                assert(v@.subrange(start as int, end as int).take(i - start) =~= v@.subrange(
                    start as int,
                    i as int,
                ));
                lemma_first_index_extend(v@.subrange(start as int, end as int), c, i - start);
            }
            return Some(i);
        }
        i = i + 1;
    }
    None
}

proof fn lemma_first_index_bounds(s: Seq<char>, c: char)
    ensures
        first_index(s, c) matches Some(k) ==> 0 <= k < s.len() && s[k] == c,
    decreases s.len(),
{
    if s.len() > 0 {
        lemma_first_index_bounds(s.drop_last(), c);
    }
}

proof fn lemma_first_index_extend(s: Seq<char>, c: char, k: int)
    requires
        0 <= k < s.len(),
        first_index(s.take(k), c) is None,
        s[k] == c,
    ensures
        first_index(s, c) == Some(k),
    decreases s.len(),
{
    if k < s.len() - 1 {
        assert(s.drop_last().take(k) =~= s.take(k));
        lemma_first_index_extend(s.drop_last(), c, k);
    } else {
        assert(s.drop_last() =~= s.take(k));
    }
}

/// `s` without its trailing whitespace (as `str::trim_end`).
pub open spec fn trim_end(s: Seq<char>) -> Seq<char>
    decreases s.len(),
{
    if s.len() > 0 && is_white(s.last()) {
        trim_end(s.drop_last())
    } else {
        s
    }
}

/// `s` without its leading whitespace (as `str::trim_start`).
pub open spec fn trim_start(s: Seq<char>) -> Seq<char>
    decreases s.len(),
{
    if s.len() > 0 && is_white(s[0]) {
        trim_start(s.drop_first())
    } else {
        s
    }
}

/// The end of `v[start..end]` once its trailing whitespace is dropped.
pub fn trim_end_index(v: &Vec<char>, start: usize, end: usize) -> (e: usize)
    requires
        start <= end <= v.len(),
    ensures
        start <= e <= end,
        v@.subrange(start as int, e as int) == trim_end(v@.subrange(start as int, end as int)),
{
    let mut e = end;
    while e > start && is_whitespace(v[e - 1])
        invariant
            start <= e <= end <= v.len(),
            trim_end(v@.subrange(start as int, e as int)) == trim_end(
                v@.subrange(start as int, end as int),
            ),
        decreases e,
    {
        assert(v@.subrange(start as int, e as int).drop_last() =~= v@.subrange(
            start as int,
            e - 1,
        ));
        e = e - 1;
    }
    e
}

/// The start of `v[start..end]` once its leading whitespace is dropped.
pub fn trim_start_index(v: &Vec<char>, start: usize, end: usize) -> (b: usize)
    requires
        start <= end <= v.len(),
    ensures
        start <= b <= end,
        v@.subrange(b as int, end as int) == trim_start(v@.subrange(start as int, end as int)),
{
    let mut b = start;
    while b < end && is_whitespace(v[b])
        invariant
            start <= b <= end <= v.len(),
            trim_start(v@.subrange(b as int, end as int)) == trim_start(
                v@.subrange(start as int, end as int),
            ),
        decreases end - b,
    {
        assert(v@.subrange(b as int, end as int).drop_first() =~= v@.subrange(
            b + 1,
            end as int,
        ));
        b = b + 1;
    }
    b
}

/// `needle` occurs somewhere in `hay` (the empty needle occurs everywhere).
pub open spec fn occurs_in(needle: Seq<char>, hay: Seq<char>) -> bool {
    exists|i: int| 0 <= i && i + needle.len() <= hay.len() && #[trigger] hay.subrange(i, i + needle.len()) == needle
}

/// Whether `needle` occurs in `hay` (as `str::contains` with a string).
pub fn contains_chars(hay: &Vec<char>, needle: &Vec<char>) -> (b: bool)
    ensures
        b == occurs_in(needle@, hay@),
{
    let n = needle.len();
    if n > hay.len() {
        return false;
    }
    let hlen = hay.len();
    let mut i: usize = 0;
    while i <= hlen - n
        invariant
            hlen == hay@.len(),
            n == needle@.len(),
            n <= hay@.len(),
            i <= hay@.len() - n + 1,
            forall|k: int| 0 <= k < i ==> #[trigger] hay@.subrange(k, k + n) != needle@,
        decreases hay.len() - i,
    {
        let mut j: usize = 0;
        let mut same = true;
        while j < n
            invariant
                n == needle@.len(),
                i + n <= hlen,
                hlen == hay@.len(),
                0 <= j <= n,
                same == (forall|m: int| 0 <= m < j ==> hay@[i + m] == needle@[m]),
            decreases n - j,
        {
            if hay[i + j] != needle[j] {
                same = false;
            }
            j = j + 1;
        }
        if same {
            assert(hay@.subrange(i as int, i + n) =~= needle@);
            return true;
        }
        assert(hay@.subrange(i as int, i + n) != needle@) by {
            let m = choose|m: int| 0 <= m < n && hay@[i + m] != needle@[m];
            assert(hay@.subrange(i as int, i + n)[m] != needle@[m]);
        }
        i = i + 1;
    }
    false
}

// ---------------------------------------------------------------------------
// Case folding
// ---------------------------------------------------------------------------

/// The lowercase form of a text, as `str::to_lowercase` computes it from the
/// Unicode case tables.
pub uninterp spec fn lowercase(s: Seq<char>) -> Seq<char>;

/// `str::to_lowercase`.
///
/// Trusted: the result is the lowercase form of the argument, whatever the
/// Unicode tables make of it; nothing is claimed about individual characters.
#[verifier::external_body]
pub(crate) fn to_lowercase(s: &str) -> (r: String)
    ensures
        r@ == lowercase(s@),
{
    s.to_lowercase()
}

} // verus!
