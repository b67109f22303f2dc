//! Character-level building blocks: reading a string into characters,
//! splitting on a separator, and decimal numbers in both directions.

use vstd::prelude::*;
use vstd::std_specs::iter::IteratorSpec;
use vstd::string::next_postcondition;
use vstd::string::axiom_spec_iter;
use vstd::string::StringExecFns;

verus! {

/// The characters of `s`, in order.
pub fn chars_of(s: &str) -> (chars: Vec<char>)
    ensures
        chars@ == s@,
{
    broadcast use next_postcondition, axiom_spec_iter;

    let mut chars: Vec<char> = Vec::new();
    let mut it = s.chars();
    loop
        invariant
            it.obeys_prophetic_iter_laws(),
            it.decrease() is Some,
            chars@ + it.remaining() == s@,
        decreases it.decrease()->0,
    {
        match it.next() {
            Some(c) => {
                chars.push(c);
                assert(chars@ + it.remaining() =~= s@);
            },
            None => {
                assert(chars@ + it.remaining() =~= chars@);
                return chars;
            },
        }
    }
}

/// The pieces of `s` between occurrences of `sep`: reading left to right,
/// every separator closes the piece before it and opens a new one, so a
/// text with `k` separators has `k + 1` pieces, some of them possibly empty.
pub open spec fn split_spec(s: Seq<char>, sep: char) -> Seq<Seq<char>>
    decreases s.len(),
{
    if s.len() == 0 {
        seq![Seq::<char>::empty()]
    } else {
        let before = split_spec(s.drop_last(), sep);
        if s.last() == sep {
            before.push(Seq::<char>::empty())
        } else {
            before.drop_last().push(before.last().push(s.last()))
        }
    }
}

/// A split always yields at least one piece.
pub proof fn lemma_split_nonempty(s: Seq<char>, sep: char)
    ensures
        split_spec(s, sep).len() >= 1,
    decreases s.len(),
{
    if s.len() > 0 {
        lemma_split_nonempty(s.drop_last(), sep);
    }
}

/// `pieces` written one after the other with `sep` between every two.
pub open spec fn join_spec(pieces: Seq<Seq<char>>, sep: char) -> Seq<char>
    decreases pieces.len(),
{
    if pieces.len() == 0 {
        Seq::<char>::empty()
    } else if pieces.len() == 1 {
        pieces[0]
    } else {
        join_spec(pieces.drop_last(), sep) + seq![sep] + pieces.last()
    }
}

/// Splitting loses nothing and cuts at every separator: no piece holds the
/// separator, and the pieces joined by it are the text again.
pub proof fn lemma_split_joins_back(s: Seq<char>, sep: char)
    ensures
        join_spec(split_spec(s, sep), sep) == s,
        forall|k: int, i: int|
            0 <= k < split_spec(s, sep).len() && 0 <= i < split_spec(s, sep)[k].len()
                ==> #[trigger] split_spec(s, sep)[k][i] != sep,
    decreases s.len(),
{
    let pieces = split_spec(s, sep);
    if s.len() == 0 {
        assert(join_spec(pieces, sep) =~= s);
    } else {
        let before = split_spec(s.drop_last(), sep);
        lemma_split_joins_back(s.drop_last(), sep);
        lemma_split_nonempty(s.drop_last(), sep);
        if s.last() == sep {
            assert(pieces.drop_last() =~= before);
            assert(join_spec(pieces, sep) =~= s.drop_last() + seq![sep]);
            assert(s.drop_last() + seq![sep] =~= s);
        } else {
            let grown = before.last().push(s.last());
            assert(pieces.last() == grown);
            if before.len() == 1 {
                assert(join_spec(before, sep) == before[0]);
                assert(join_spec(pieces, sep) =~= s.drop_last().push(s.last()));
            } else {
                assert(pieces.drop_last() =~= before.drop_last());
                assert(join_spec(pieces, sep) =~= (join_spec(before.drop_last(), sep) + seq![sep]
                    + before.last()).push(s.last()));
            }
            assert(s.drop_last().push(s.last()) =~= s);
            assert forall|k: int, i: int|
                0 <= k < pieces.len() && 0 <= i < pieces[k].len() implies #[trigger] pieces[k][i]
                != sep by {
                if k < pieces.len() - 1 {
                    assert(pieces[k] == before[k]);
                } else if i < before.last().len() {
                    assert(pieces[k][i] == before[k][i]);
                }
            }
        }
    }
}

/// Whether range `k + 1` of `bounds` starts one index behind the end of
/// range `k`, with room for one separator between them.
pub open spec fn adjoins(bounds: Seq<(usize, usize)>, k: int) -> bool {
    bounds[k].1 + 1 == bounds[k + 1].0
}

/// Whether `bounds` marks, as half-open index ranges into `chars`, exactly
/// the pieces `pieces`, each range lying inside `from..to`.
pub open spec fn bounds_mark(
    chars: Seq<char>,
    from: int,
    to: int,
    bounds: Seq<(usize, usize)>,
    pieces: Seq<Seq<char>>,
) -> bool {
    &&& bounds.len() == pieces.len()
    &&& bounds.len() >= 1
    &&& bounds[0].0 == from
    &&& bounds[bounds.len() - 1].1 == to
    &&& forall|k: int|
        0 <= k < bounds.len() ==> {
            &&& from <= (#[trigger] bounds[k]).0 <= bounds[k].1 <= to
            &&& chars.subrange(bounds[k].0 as int, bounds[k].1 as int) == pieces[k]
        }
    &&& forall|k: int| 0 <= k < bounds.len() - 1 ==> #[trigger] adjoins(bounds, k)
}

/// Splits `chars[from..to]` on `sep` and returns the index range of each piece.
pub fn split_bounds(chars: &Vec<char>, from: usize, to: usize, sep: char) -> (bounds: Vec<
    (usize, usize),
>)
    requires
        from <= to <= chars@.len(),
    ensures
        bounds_mark(
            chars@,
            from as int,
            to as int,
            bounds@,
            split_spec(chars@.subrange(from as int, to as int), sep),
        ),
{
    let mut bounds: Vec<(usize, usize)> = Vec::new();
    let mut piece_start: usize = from;
    let mut i: usize = from;
    assert(chars@.subrange(from as int, from as int) =~= Seq::<char>::empty());
    while i < to
        invariant
            from <= piece_start <= i <= to <= chars@.len(),
            split_spec(chars@.subrange(from as int, i as int), sep).len() == bounds@.len() + 1,
            split_spec(chars@.subrange(from as int, i as int), sep).last() == chars@.subrange(
                piece_start as int,
                i as int,
            ),
            forall|k: int|
                0 <= k < bounds@.len() ==> {
                    &&& from <= (#[trigger] bounds@[k]).0 <= bounds@[k].1 <= to
                    &&& chars@.subrange(bounds@[k].0 as int, bounds@[k].1 as int) == split_spec(
                        chars@.subrange(from as int, i as int),
                        sep,
                    )[k]
                },
            forall|k: int| 0 <= k < bounds@.len() - 1 ==> #[trigger] adjoins(bounds@, k),
            bounds@.len() > 0 ==> bounds@[0].0 == from && bounds@[bounds@.len() - 1].1 + 1
                == piece_start,
            bounds@.len() == 0 ==> piece_start == from,
        decreases to - i,
    {
        let ghost seen = chars@.subrange(from as int, i as int);
        let ghost next = chars@.subrange(from as int, i + 1);
        assert(next.drop_last() =~= seen);
        assert(next.last() == chars@[i as int]);
        if chars[i] == sep {
            let ghost marked = bounds@;
            bounds.push((piece_start, i));
            assert forall|k: int| 0 <= k < bounds@.len() - 1 implies #[trigger] adjoins(
                bounds@,
                k,
            ) by {
                if k < marked.len() - 1 {
                    assert(adjoins(marked, k));
                }
            }
            piece_start = i + 1;
            assert(chars@.subrange(piece_start as int, i + 1) =~= Seq::<char>::empty());
        } else {
            assert(chars@.subrange(piece_start as int, i + 1) =~= chars@.subrange(
                piece_start as int,
                i as int,
            ).push(chars@[i as int]));
        }
        i += 1;
    }
    let ghost marked = bounds@;
    bounds.push((piece_start, to));
    assert forall|k: int| 0 <= k < bounds@.len() - 1 implies #[trigger] adjoins(bounds@, k) by {
        if k < marked.len() - 1 {
            assert(adjoins(marked, k));
        }
    }
    bounds
}

/// Whether `c` is one of the ten decimal digits.
pub open spec fn is_digit(c: char) -> bool {
    '0' <= c <= '9'
}

/// The value of the decimal digit `c`.
pub open spec fn digit_value(c: char) -> int {
    c as int - '0' as int
}

/// Whether every character of `s` is a decimal digit.
pub open spec fn all_digits(s: Seq<char>) -> bool {
    forall|i: int| 0 <= i < s.len() ==> is_digit(#[trigger] s[i])
}

/// The number that the digit string `s` writes, most significant digit first.
pub open spec fn digits_value(s: Seq<char>) -> int
    decreases s.len(),
{
    if s.len() == 0 {
        0
    } else {
        digits_value(s.drop_last()) * 10 + digit_value(s.last())
    }
}

/// What a decimal integer text denotes as an `i32`: an optional `+` or `-`,
/// then at least one digit, the value within the range of `i32`. Any other
/// text denotes nothing.
pub open spec fn parse_i32_spec(s: Seq<char>) -> Option<int> {
    let negative = s.len() > 0 && s[0] == '-';
    let signed = s.len() > 0 && (s[0] == '-' || s[0] == '+');
    let digits = if signed {
        s.skip(1)
    } else {
        s
    };
    let value = if negative {
        -digits_value(digits)
    } else {
        digits_value(digits)
    };
    if digits.len() > 0 && all_digits(digits) && i32::MIN <= value <= i32::MAX {
        Some(value)
    } else {
        None
    }
}

/// A digit string is worth at least as much as any of its prefixes.
pub proof fn lemma_digits_value_grows(s: Seq<char>, n: int)
    requires
        all_digits(s),
        0 <= n <= s.len(),
    ensures
        0 <= digits_value(s.take(n)) <= digits_value(s),
    decreases s.len() - n,
{
    lemma_digits_value_nonneg(s.take(n));
    if n < s.len() {
        lemma_digits_value_grows(s, n + 1);
        assert(s.take(n + 1).drop_last() =~= s.take(n));
        assert(is_digit(s[n]));
        assert(s.take(n + 1).last() == s[n]);
    } else {
        assert(s.take(n) =~= s);
    }
}

/// A digit string never writes a negative number.
pub proof fn lemma_digits_value_nonneg(s: Seq<char>)
    requires
        all_digits(s),
    ensures
        0 <= digits_value(s),
    decreases s.len(),
{
    if s.len() > 0 {
        assert(is_digit(s.last()));
        lemma_digits_value_nonneg(s.drop_last());
    }
}

/// Reads `chars[from..to]` as a decimal `i32`.
#[verifier::loop_isolation(false)]
pub fn parse_i32(chars: &Vec<char>, from: usize, to: usize) -> (value: Option<i32>)
    requires
        from <= to <= chars@.len(),
    ensures
        match parse_i32_spec(chars@.subrange(from as int, to as int)) {
            Some(v) => value == Some(v as i32),
            None => value is None,
        },
{
    let ghost text = chars@.subrange(from as int, to as int);
    if from == to {
        return None;
    }
    assert(text[0] == chars@[from as int]);
    let negative: bool = chars[from] == '-';
    let signed: bool = negative || chars[from] == '+';
    let first: usize = if signed {
        from + 1
    } else {
        from
    };
    let ghost digits = chars@.subrange(first as int, to as int);
    assert(digits =~= if signed {
        text.skip(1)
    } else {
        text
    });
    if first == to {
        return None;
    }
    let limit: i64 = 2147483648;
    let mut total: i64 = 0;
    let mut i: usize = first;
    assert(digits.take(0) =~= Seq::<char>::empty());
    while i < to
        invariant
            first <= i <= to <= chars@.len(),
            digits == chars@.subrange(first as int, to as int),
            limit == 2147483648,
            all_digits(digits.take(i - first)),
            total == digits_value(digits.take(i - first)),
            0 <= total <= limit,
        decreases to - i,
    {
        let c: char = chars[i];
        assert(digits[i - first] == c);
        if c < '0' || c > '9' {
            assert(!is_digit(digits[i - first]));
            return None;
        }
        let d: i64 = (c as u32 - '0' as u32) as i64;
        let ghost longer = digits.take(i - first + 1);
        assert(longer.drop_last() =~= digits.take(i - first));
        assert(longer.last() == c);
        assert forall|k: int| 0 <= k < longer.len() implies is_digit(#[trigger] longer[k]) by {
            if k < i - first {
                assert(longer[k] == digits.take(i - first)[k]);
            }
        }
        total = total * 10 + d;
        i += 1;
        if total > limit {
            proof {
                if all_digits(digits) {
                    lemma_digits_value_grows(digits, i - first);
                }
            }
            return None;
        }
    }
    assert(digits.take(i - first) =~= digits);
    if negative {
        Some((-total) as i32)
    } else if total == limit {
        None
    } else {
        Some(total as i32)
    }
}

/// The character that writes the digit `d`.
pub open spec fn digit_char(d: int) -> char {
    if d == 0 {
        '0'
    } else if d == 1 {
        '1'
    } else if d == 2 {
        '2'
    } else if d == 3 {
        '3'
    } else if d == 4 {
        '4'
    } else if d == 5 {
        '5'
    } else if d == 6 {
        '6'
    } else if d == 7 {
        '7'
    } else if d == 8 {
        '8'
    } else {
        '9'
    }
}

/// The decimal digits of `n`, most significant first, without leading zeros.
pub open spec fn dec_digits(n: nat) -> Seq<char>
    decreases n,
{
    if n < 10 {
        seq![digit_char(n as int)]
    } else {
        dec_digits(n / 10).push(digit_char((n % 10) as int))
    }
}

/// `n` in decimal, filled with zeros up to `width` characters: a `-` first
/// where `n` is negative, then as many zeros as it takes to reach the width,
/// then the digits. A number that needs more than `width` characters is
/// written in full.
pub open spec fn zero_padded(n: int, width: nat) -> Seq<char> {
    let digits = dec_digits(vstd::math::abs(n) as nat);
    let sign = if n < 0 {
        seq!['-']
    } else {
        Seq::<char>::empty()
    };
    let used = sign.len() + digits.len();
    let fill = if used < width {
        (width - used) as nat
    } else {
        0
    };
    sign + Seq::new(fill, |i: int| '0') + digits
}

/// Ten to the power `k`.
pub open spec fn pow10(k: nat) -> nat
    decreases k,
{
    if k == 0 {
        1
    } else {
        10 * pow10((k - 1) as nat)
    }
}

/// A number below ten to the power `k` has at most `k` decimal digits.
pub proof fn lemma_dec_digits_len(n: nat, k: nat)
    requires
        k >= 1,
        n < pow10(k),
    ensures
        1 <= dec_digits(n).len() <= k,
    decreases k,
{
    reveal_with_fuel(pow10, 2);
    if n >= 10 {
        assert(k >= 2);
        lemma_dec_digits_len(n / 10, (k - 1) as nat);
    }
}

/// A number that is not negative and has at most `width` digits is written
/// in exactly `width` characters; no number is written in fewer.
pub proof fn lemma_zero_padded_len(n: int, width: nat)
    ensures
        zero_padded(n, width).len() >= width,
        width >= 1 && 0 <= n < pow10(width) ==> zero_padded(n, width).len() == width,
{
    if width >= 1 && 0 <= n < pow10(width) {
        lemma_dec_digits_len(n as nat, width);
    }
}

/// The digits of a number are digits, and they write the number.
pub proof fn lemma_dec_digits_value(n: nat)
    ensures
        all_digits(dec_digits(n)),
        digits_value(dec_digits(n)) == n,
    decreases n,
{
    let digits = dec_digits(n);
    if n < 10 {
        assert(digits.drop_last() =~= Seq::<char>::empty());
        assert(digits_value(digits.drop_last()) == 0);
        assert(digits.last() == digit_char(n as int));
    } else {
        lemma_dec_digits_value(n / 10);
        assert(digits.drop_last() =~= dec_digits(n / 10));
        assert(digits.last() == digit_char((n % 10) as int));
        assert forall|i: int| 0 <= i < digits.len() implies is_digit(#[trigger] digits[i]) by {
            if i < digits.len() - 1 {
                assert(digits[i] == dec_digits(n / 10)[i]);
            }
        }
    }
}

/// Zeros in front of a digit string do not change the number it writes.
pub proof fn lemma_leading_zeros(fill: nat, digits: Seq<char>)
    requires
        all_digits(digits),
    ensures
        all_digits(Seq::new(fill, |i: int| '0') + digits),
        digits_value(Seq::new(fill, |i: int| '0') + digits) == digits_value(digits),
    decreases digits.len(), fill,
{
    let zeros = Seq::new(fill, |i: int| '0');
    let whole = zeros + digits;
    if digits.len() > 0 {
        lemma_leading_zeros(fill, digits.drop_last());
        assert(whole.drop_last() =~= zeros + digits.drop_last());
        assert(whole.last() == digits.last());
    } else if fill > 0 {
        let fewer = Seq::new((fill - 1) as nat, |i: int| '0');
        lemma_leading_zeros((fill - 1) as nat, digits);
        assert(whole.drop_last() =~= fewer + digits);
        assert(whole.last() == '0');
    } else {
        assert(whole =~= digits);
    }
}

/// What is written is read back: the zero-filled decimal form of any `i32`,
/// at any width, denotes that number.
pub proof fn lemma_parse_reads_zero_padded(n: int, width: nat)
    requires
        i32::MIN <= n <= i32::MAX,
    ensures
        parse_i32_spec(zero_padded(n, width)) == Some(n),
{
    let digits = dec_digits(vstd::math::abs(n) as nat);
    let used = (if n < 0 {
        1nat
    } else {
        0nat
    }) + digits.len();
    let fill: nat = if used < width {
        (width - used) as nat
    } else {
        0
    };
    let body = Seq::new(fill, |i: int| '0') + digits;
    lemma_dec_digits_value(vstd::math::abs(n) as nat);
    lemma_leading_zeros(fill, digits);
    let written = zero_padded(n, width);
    if n < 0 {
        assert(written =~= seq!['-'] + body);
        assert(written.skip(1) =~= body);
    } else {
        assert(written =~= body);
        assert(is_digit(body[0]));
    }
}

/// The digits `low_first`, which stand least significant first, read from
/// the most significant downwards.
pub open spec fn digits_high_first(low_first: Seq<u8>) -> Seq<char> {
    Seq::new(low_first.len(), |i: int| digit_char(low_first[low_first.len() - 1 - i] as int))
}

fn digit_text(d: u8) -> (text: &'static str)
    requires
        d < 10,
    ensures
        text@ == seq![digit_char(d as int)],
{
    proof {
        reveal_strlit("0");
        reveal_strlit("1");
        reveal_strlit("2");
        reveal_strlit("3");
        reveal_strlit("4");
        reveal_strlit("5");
        reveal_strlit("6");
        reveal_strlit("7");
        reveal_strlit("8");
        reveal_strlit("9");
    }
    let text = if d == 0 {
        "0"
    } else if d == 1 {
        "1"
    } else if d == 2 {
        "2"
    } else if d == 3 {
        "3"
    } else if d == 4 {
        "4"
    } else if d == 5 {
        "5"
    } else if d == 6 {
        "6"
    } else if d == 7 {
        "7"
    } else if d == 8 {
        "8"
    } else {
        "9"
    };
    assert(text@ =~= seq![digit_char(d as int)]);
    text
}

/// Appends `n` to `out` in decimal, zero-filled to `width` characters.
pub fn append_zero_padded(out: &mut String, n: i64, width: usize)
    ensures
        final(out)@ == old(out)@ + zero_padded(n as int, width as nat),
{
    let magnitude: u64 = if n == i64::MIN {
        9223372036854775808
    } else if n < 0 {
        (-n) as u64
    } else {
        n as u64
    };
    assert(magnitude == vstd::math::abs(n as int));
    let mut low_first: Vec<u8> = Vec::new();
    low_first.push((magnitude % 10) as u8);
    let mut rest: u64 = magnitude / 10;
    assert(digits_high_first(low_first@) =~= seq![digit_char((magnitude % 10) as int)]);
    assert(dec_digits(magnitude as nat) =~= (if rest > 0 {
        dec_digits(rest as nat)
    } else {
        Seq::<char>::empty()
    }) + digits_high_first(low_first@));
    assert(rest < pow10(19)) by {
        reveal_with_fuel(pow10, 20);
    }
    while rest > 0
        invariant
            1 <= low_first@.len() <= 20,
            rest < pow10((20 - low_first@.len()) as nat),
            forall|k: int| 0 <= k < low_first@.len() ==> #[trigger] low_first@[k] < 10,
            dec_digits(magnitude as nat) == (if rest > 0 {
                dec_digits(rest as nat)
            } else {
                Seq::<char>::empty()
            }) + digits_high_first(low_first@),
        decreases rest,
    {
        let ghost before = low_first@;
        assert(low_first@.len() < 20) by {
            reveal_with_fuel(pow10, 1);
        }
        assert(rest / 10 < pow10((19 - low_first@.len()) as nat)) by {
            reveal_with_fuel(pow10, 2);
        }
        low_first.push((rest % 10) as u8);
        let ghost lowest = rest % 10;
        assert(digits_high_first(low_first@) =~= seq![digit_char(lowest as int)]
            + digits_high_first(before));
        assert(dec_digits(rest as nat) =~= (if rest / 10 > 0 {
            dec_digits((rest / 10) as nat)
        } else {
            Seq::<char>::empty()
        }) + seq![digit_char(lowest as int)]);
        rest = rest / 10;
        assert(dec_digits(magnitude as nat) =~= (if rest > 0 {
            dec_digits(rest as nat)
        } else {
            Seq::<char>::empty()
        }) + digits_high_first(low_first@));
    }
    let ghost digits = dec_digits(magnitude as nat);
    assert(digits =~= digits_high_first(low_first@));
    let mut used: usize = low_first.len();
    if n < 0 {
        proof {
            reveal_strlit("-");
        }
        out.append("-");
        assert(out@ =~= old(out)@ + seq!['-']);
        used = used + 1;
    }
    let ghost sign = if n < 0 {
        seq!['-']
    } else {
        Seq::<char>::empty()
    };
    assert(out@ =~= old(out)@ + sign);
    let ghost fill: nat = if used < width {
        (width - used) as nat
    } else {
        0
    };
    let mut filled: usize = 0;
    assert(out@ =~= old(out)@ + sign + Seq::new(0, |i: int| '0'));
    while used < width && filled < width - used
        invariant
            filled <= fill,
            used == sign.len() + digits.len(),
            fill == if used < width {
                (width - used) as nat
            } else {
                0
            },
            out@ == old(out)@ + sign + Seq::new(filled as nat, |i: int| '0'),
        decreases fill - filled,
    {
        proof {
            reveal_strlit("0");
        }
        out.append("0");
        filled = filled + 1;
        assert(out@ =~= old(out)@ + sign + Seq::new(filled as nat, |i: int| '0'));
    }
    assert(filled == fill);
    let mut left: usize = low_first.len();
    assert(digits.take(0) =~= Seq::<char>::empty());
    assert(out@ =~= old(out)@ + sign + Seq::new(fill, |i: int| '0') + digits.take(0));
    while left > 0
        invariant
            left <= low_first@.len(),
            digits == digits_high_first(low_first@),
            forall|k: int| 0 <= k < low_first@.len() ==> #[trigger] low_first@[k] < 10,
            out@ == old(out)@ + sign + Seq::new(fill, |i: int| '0') + digits.take(
                low_first@.len() - left,
            ),
        decreases left,
    {
        left = left - 1;
        let d: u8 = low_first[left];
        out.append(digit_text(d));
        assert(digits.take(low_first@.len() - left) =~= digits.take(low_first@.len() - left - 1)
            + seq![digit_char(d as int)]);
        assert(out@ =~= old(out)@ + sign + Seq::new(fill, |i: int| '0') + digits.take(
            low_first@.len() - left,
        ));
    }
    assert(digits.take(low_first@.len() as int) =~= digits);
    assert(out@ =~= old(out)@ + (sign + Seq::new(fill, |i: int| '0') + digits));
}

/// Whether `s` ends with `suffix`.
pub open spec fn ends_with_spec(s: Seq<char>, suffix: Seq<char>) -> bool {
    s.len() >= suffix.len() && s.subrange(s.len() - suffix.len(), s.len() as int) == suffix
}

/// Whether `chars[from..to]` spells `word`.
pub fn range_equals(chars: &Vec<char>, from: usize, to: usize, word: &Vec<char>) -> (same: bool)
    requires
        from <= to <= chars@.len(),
    ensures
        same == (chars@.subrange(from as int, to as int) == word@),
{
    let ghost piece = chars@.subrange(from as int, to as int);
    if to - from != word.len() {
        return false;
    }
    let mut i: usize = 0;
    while i < word.len()
        invariant
            from <= to <= chars@.len(),
            to - from == word@.len(),
            i <= word@.len(),
            piece == chars@.subrange(from as int, to as int),
            forall|k: int| 0 <= k < i ==> piece[k] == word@[k],
        decreases word@.len() - i,
    {
        if chars[from + i] != word[i] {
            assert(piece[i as int] != word@[i as int]);
            return false;
        }
        i += 1;
    }
    assert(piece =~= word@);
    true
}

/// Whether `s` ends with `suffix`.
pub fn ends_with(s: &Vec<char>, suffix: &Vec<char>) -> (ends: bool)
    ensures
        ends == ends_with_spec(s@, suffix@),
{
    if s.len() < suffix.len() {
        false
    } else {
        range_equals(s, s.len() - suffix.len(), s.len(), suffix)
    }
}

/// A copy of the characters `from..to` of `text`.
pub fn copy_range(text: &str, from: usize, to: usize) -> (piece: String)
    requires
        from <= to <= text@.len(),
    ensures
        piece@ == text@.subrange(from as int, to as int),
{
    String::from_str(text.substring_char(from, to))
}

} // verus!
