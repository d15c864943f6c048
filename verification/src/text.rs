//! Decimal numbers in text, and text split at a separator.
use vstd::prelude::*;
use vstd::string::StrSliceExecFns;

verus! {

pub open spec fn digit_char(d: nat) -> char {
    if d == 0 { '0' }
    else if d == 1 { '1' }
    else if d == 2 { '2' }
    else if d == 3 { '3' }
    else if d == 4 { '4' }
    else if d == 5 { '5' }
    else if d == 6 { '6' }
    else if d == 7 { '7' }
    else if d == 8 { '8' }
    else { '9' }
}

pub open spec fn is_digit(c: char) -> bool {
    '0' <= c <= '9'
}

pub open spec fn digit_value(c: char) -> nat {
    (c as int - '0' as int) as nat
}

/// The decimal digits of `n`, without leading zeros.
pub open spec fn dec(n: nat) -> Seq<char>
    decreases n,
{
    if n < 10 {
        seq![digit_char(n)]
    } else {
        dec(n / 10).push(digit_char(n % 10))
    }
}

/// How an integer is written: its digits, after a minus sign when it is
/// negative.
pub open spec fn dec_int(v: int) -> Seq<char> {
    if v < 0 {
        seq!['-'] + dec((-v) as nat)
    } else {
        dec(v as nat)
    }
}

pub open spec fn all_digits(s: Seq<char>) -> bool {
    forall|i: int| 0 <= i < s.len() ==> is_digit(#[trigger] s[i])
}

/// The value of a string of digits.
pub open spec fn digits_value(s: Seq<char>) -> nat
    decreases s.len(),
{
    if s.len() == 0 {
        0
    } else {
        digits_value(s.drop_last()) * 10 + digit_value(s.last())
    }
}

/// The number an unsigned integer is read from: an optional `+` followed
/// by at least one digit and nothing else.
pub open spec fn parse_unsigned(s: Seq<char>) -> Option<nat> {
    let body = if s.len() > 0 && s[0] == '+' { s.drop_first() } else { s };
    if body.len() > 0 && all_digits(body) {
        Some(digits_value(body))
    } else {
        None
    }
}

/// The number a signed integer is read from: an optional `+` or `-`
/// followed by at least one digit and nothing else.
pub open spec fn parse_signed(s: Seq<char>) -> Option<int> {
    if s.len() > 0 && s[0] == '-' {
        let body = s.drop_first();
        if body.len() > 0 && all_digits(body) {
            Some(-(digits_value(body) as int))
        } else {
            None
        }
    } else {
        match parse_unsigned(s) {
            Some(v) => Some(v as int),
            None => None,
        }
    }
}

/// What `u8` reads from text: the number, when it is at most 255.
pub open spec fn parse_u8_spec(s: Seq<char>) -> Option<u8> {
    match parse_unsigned(s) {
        Some(v) => if v <= 255 { Some(v as u8) } else { None },
        None => None,
    }
}

/// What `i32` reads from text: the number, when it fits.
pub open spec fn parse_i32_spec(s: Seq<char>) -> Option<i32> {
    match parse_signed(s) {
        Some(v) => if i32::MIN <= v <= i32::MAX { Some(v as i32) } else { None },
        None => None,
    }
}

/// Reads a `u8` from text with the standard library's `str::parse`.
/// Claimed, after its documentation: the text is an optional `+` and
/// decimal digits, and the value is at most 255; otherwise `None`.
#[verifier::external_body]
pub(crate) fn parse_u8(s: &str) -> (r: Option<u8>)
    ensures
        r == parse_u8_spec(s@),
{
    s.parse::<u8>().ok()
}

/// Reads an `i32` from text with the standard library's `str::parse`.
/// Claimed, after its documentation: the text is an optional sign and
/// decimal digits, and the value fits in `i32`; otherwise `None`.
#[verifier::external_body]
pub(crate) fn parse_i32(s: &str) -> (r: Option<i32>)
    ensures
        r == parse_i32_spec(s@),
{
    s.parse::<i32>().ok()
}

/// Writes a `u8` in decimal with the standard library's `to_string`.
/// Claimed: the digits of the value, without leading zeros.
#[verifier::external_body]
pub(crate) fn u8_to_string(v: u8) -> (s: String)
    ensures
        s@ == dec(v as nat),
{
    v.to_string()
}

/// Writes an `i32` in decimal with the standard library's `to_string`.
/// Claimed: a minus sign for a negative value, then the digits of its
/// magnitude, without leading zeros.
#[verifier::external_body]
pub(crate) fn i32_to_string(v: i32) -> (s: String)
    ensures
        s@ == dec_int(v as int),
{
    v.to_string()
}

proof fn lemma_digit_char(d: nat)
    requires
        d < 10,
    ensures
        is_digit(digit_char(d)),
        digit_value(digit_char(d)) == d,
        digit_char(d) != ',',
        digit_char(d) != '+',
        digit_char(d) != '-',
{
}

/// The digits of a number are digits, and read back as the number.
pub proof fn lemma_dec_reads_back(n: nat)
    ensures
        dec(n).len() > 0,
        all_digits(dec(n)),
        digits_value(dec(n)) == n,
        dec(n)[0] != '+',
        dec(n)[0] != '-',
    decreases n,
{
    if n < 10 {
        lemma_digit_char(n);
        assert(dec(n).drop_last() =~= Seq::<char>::empty());
        assert(digits_value(dec(n)) == digits_value(dec(n).drop_last()) * 10 + digit_value(dec(n).last()));
    } else {
        lemma_dec_reads_back(n / 10);
        lemma_digit_char(n % 10);
        let s = dec(n);
        assert(s.drop_last() =~= dec(n / 10));
        assert((n / 10) * 10 + n % 10 == n);
        assert(s.last() == digit_char(n % 10));
        assert(digits_value(s) == digits_value(s.drop_last()) * 10 + digit_value(s.last()));
        assert(digits_value(s) == digits_value(dec(n / 10)) * 10 + (n % 10));
        assert forall|i: int| 0 <= i < s.len() implies is_digit(#[trigger] s[i]) by {
            if i < s.len() - 1 {
                assert(s[i] == dec(n / 10)[i]);
            }
        }
    }
}

/// A `u8` written in decimal reads back as itself.
pub proof fn lemma_u8_round_trip(v: u8)
    ensures
        parse_u8_spec(dec(v as nat)) == Some(v),
{
    lemma_dec_reads_back(v as nat);
}

/// An `i32` written in decimal reads back as itself.
pub proof fn lemma_i32_round_trip(v: i32)
    ensures
        parse_i32_spec(dec_int(v as int)) == Some(v),
{
    if v < 0 {
        lemma_dec_reads_back((-v) as nat);
        let s = dec_int(v as int);
        assert(s.drop_first() =~= dec((-v) as nat));
    } else {
        lemma_dec_reads_back(v as nat);
    }
}

/// A decimal number has no comma in it.
pub proof fn lemma_dec_no_comma(n: nat)
    ensures
        !dec(n).contains(','),
{
    lemma_dec_reads_back(n);
    if dec(n).contains(',') {
        let i = choose|i: int| 0 <= i < dec(n).len() && dec(n)[i] == ',';
        assert(is_digit(dec(n)[i]));
    }
}

/// The pieces of `s` between the separators `c`, in order; text without a
/// separator is one piece, and the empty text is one empty piece.
pub open spec fn split_on(s: Seq<char>, c: char) -> Seq<Seq<char>>
    decreases s.len(),
{
    if s.len() == 0 {
        seq![Seq::empty()]
    } else {
        let rest = split_on(s.drop_last(), c);
        if s.last() == c {
            rest.push(Seq::empty())
        } else {
            rest.update(rest.len() - 1, rest.last().push(s.last()))
        }
    }
}

/// The pieces joined with the separator `c` between them.
pub open spec fn join_with(pieces: Seq<Seq<char>>, c: char) -> Seq<char>
    decreases pieces.len(),
{
    if pieces.len() == 0 {
        Seq::empty()
    } else if pieces.len() == 1 {
        pieces[0]
    } else {
        join_with(pieces.drop_last(), c).push(c) + pieces.last()
    }
}

proof fn lemma_split_len(s: Seq<char>, c: char)
    ensures
        split_on(s, c).len() >= 1,
    decreases s.len(),
{
    if s.len() > 0 {
        lemma_split_len(s.drop_last(), c);
    }
}

/// Appending text without the separator extends the last piece.
proof fn lemma_split_extend(a: Seq<char>, b: Seq<char>, c: char)
    requires
        !b.contains(c),
    ensures
        split_on(a + b, c) == split_on(a, c).update(
            split_on(a, c).len() - 1,
            split_on(a, c).last() + b,
        ),
    decreases b.len(),
{
    lemma_split_len(a, c);
    if b.len() == 0 {
        assert(a + b =~= a);
        assert(split_on(a, c).last() + b =~= split_on(a, c).last());
        assert(split_on(a, c).update(split_on(a, c).len() - 1, split_on(a, c).last()) =~= split_on(a, c));
    } else {
        let b2 = b.drop_last();
        assert(!b2.contains(c)) by {
            if b2.contains(c) {
                let i = choose|i: int| 0 <= i < b2.len() && b2[i] == c;
                assert(b[i] == c);
            }
        }
        lemma_split_extend(a, b2, c);
        assert((a + b).drop_last() =~= a + b2);
        assert((a + b).last() == b.last());
        assert(b.last() != c) by {
            assert(b[b.len() - 1] == b.last());
        }
        let sa = split_on(a, c);
        assert(split_on(a + b, c) =~= sa.update(sa.len() - 1, sa.last() + b)) by {
            assert(sa.last() + b2 + seq![b.last()] =~= sa.last() + b);
            assert((sa.last() + b2).push(b.last()) =~= sa.last() + b);
        }
    }
}

/// Splitting text joined with a separator that no piece contains gives
/// back the pieces.
pub proof fn lemma_split_join(pieces: Seq<Seq<char>>, c: char)
    requires
        pieces.len() >= 1,
        forall|i: int| 0 <= i < pieces.len() ==> !(#[trigger] pieces[i]).contains(c),
    ensures
        split_on(join_with(pieces, c), c) == pieces,
    decreases pieces.len(),
{
    if pieces.len() == 1 {
        lemma_split_extend(Seq::empty(), pieces[0], c);
        assert(Seq::<char>::empty() + pieces[0] =~= pieces[0]);
        assert(seq![Seq::<char>::empty()].update(0, Seq::<char>::empty() + pieces[0]) =~= pieces);
    } else {
        let init = pieces.drop_last();
        assert forall|i: int| 0 <= i < init.len() implies !(#[trigger] init[i]).contains(c) by {
            assert(init[i] == pieces[i]);
        }
        lemma_split_join(init, c);
        let j = join_with(init, c).push(c);
        assert(j.drop_last() =~= join_with(init, c));
        assert(split_on(j, c) == init.push(Seq::empty()));
        lemma_split_extend(j, pieces.last(), c);
        assert(!pieces.last().contains(c)) by {
            assert(pieces[pieces.len() - 1] == pieces.last());
        }
        assert(Seq::<char>::empty() + pieces.last() =~= pieces.last());
        assert(init.push(Seq::empty()).update(init.len() as int, Seq::<char>::empty() + pieces.last()) =~= pieces);
    }
}

/// The views of a list of strings.
pub open spec fn strings_view(v: Seq<String>) -> Seq<Seq<char>> {
    Seq::new(v.len(), |i: int| v[i]@)
}

/// Splits `s` at every `sep`.
pub fn split_at_char(s: &str, sep: char) -> (pieces: Vec<String>)
    ensures
        strings_view(pieces@) == split_on(s@, sep),
{
    let n = s.unicode_len();
    let mut pieces: Vec<String> = Vec::new();
    let mut start: usize = 0;
    let mut i: usize = 0;
    proof {
        assert(s@.take(0) =~= Seq::<char>::empty());
        assert(strings_view(pieces@).push(s@.subrange(0, 0)) =~= split_on(s@.take(0), sep));
    }
    while i < n
        invariant
            n == s@.len(),
            start <= i <= n,
            strings_view(pieces@).push(s@.subrange(start as int, i as int)) == split_on(s@.take(i as int), sep),
        decreases n - i,
    {
        let ch = s.get_char(i);
        let ghost cur = s@.take(i as int);
        assert(s@.take(i + 1).drop_last() =~= cur);
        assert(s@.take(i + 1).last() == ch);
        if ch == sep {
            let piece = s.substring_char(start, i).to_owned();
            let ghost old_pieces = pieces@;
            let ghost old_start = start;
            pieces.push(piece);
            start = i + 1;
            assert(strings_view(pieces@) =~= strings_view(old_pieces).push(s@.subrange(old_start as int, i as int)));
            assert(s@.subrange(start as int, i + 1) =~= Seq::<char>::empty());
            assert(strings_view(pieces@).push(s@.subrange(start as int, i + 1)) =~= split_on(cur, sep).push(Seq::empty()));
        } else {
            let ghost sp = split_on(cur, sep);
            assert(s@.subrange(start as int, i + 1) =~= s@.subrange(start as int, i as int).push(ch));
            assert(strings_view(pieces@).push(s@.subrange(start as int, i + 1)) =~= sp.update(sp.len() - 1, sp.last().push(ch)));
        }
        i += 1;
    }
    let last = s.substring_char(start, n).to_owned();
    pieces.push(last);
    proof {
        assert(s@.take(n as int) =~= s@);
        assert(strings_view(pieces@) =~= split_on(s@.take(i as int), sep));
    }
    pieces
}

/// Splits `s` at every comma.
pub fn split_commas(s: &str) -> (pieces: Vec<String>)
    ensures
        strings_view(pieces@) == split_on(s@, ','),
{
    split_at_char(s, ',')
}

/// What `u32` reads from text: the number, when it fits.
pub open spec fn parse_u32_spec(s: Seq<char>) -> Option<u32> {
    match parse_unsigned(s) {
        Some(v) => if v <= u32::MAX { Some(v as u32) } else { None },
        None => None,
    }
}

/// Reads a `u32` from text with the standard library's `str::parse`.
/// Claimed, after its documentation: the text is an optional `+` and
/// decimal digits, and the value fits in `u32`; otherwise `None`.
#[verifier::external_body]
pub(crate) fn parse_u32(s: &str) -> (r: Option<u32>)
    ensures
        r == parse_u32_spec(s@),
{
    s.parse::<u32>().ok()
}

} // verus!
