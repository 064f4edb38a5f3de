//! Character-level text helpers for the snapshot format: splitting on a
//! separator, decimal numerals, and their inverses.

use vstd::prelude::*;

verus! {

/// Holds when no character of `s` equals the separator `c`.
pub open spec fn sep_free(s: Seq<char>, c: char) -> bool {
    forall|j: int| 0 <= j < s.len() ==> s[j] != c
}

/// Splits `s` at every occurrence of `c`. The result always has at least one
/// piece; `n` separators yield `n + 1` pieces, each free of `c`.
pub open spec fn split_char(s: Seq<char>, c: char) -> Seq<Seq<char>>
    decreases s.len(),
{
    if s.len() == 0 {
        seq![Seq::<char>::empty()]
    } else if s[0] == c {
        seq![Seq::<char>::empty()] + split_char(s.drop_first(), c)
    } else {
        let r = split_char(s.drop_first(), c);
        seq![seq![s[0]] + r[0]] + r.drop_first()
    }
}

pub proof fn lemma_split_char_len(s: Seq<char>, c: char)
    ensures
        split_char(s, c).len() >= 1,
    decreases s.len(),
{
    if s.len() != 0 {
        lemma_split_char_len(s.drop_first(), c);
    }
}

pub proof fn lemma_split_char_no_sep(s: Seq<char>, c: char)
    requires
        sep_free(s, c),
    ensures
        split_char(s, c) == seq![s],
    decreases s.len(),
{
    if s.len() == 0 {
        assert(s =~= Seq::<char>::empty());
        assert(split_char(s, c) =~~= seq![s]);
    } else {
        assert(sep_free(s.drop_first(), c)) by {
            assert(forall|j: int|
                0 <= j < s.drop_first().len() ==> s.drop_first()[j] == s[j + 1]);
        }
        lemma_split_char_no_sep(s.drop_first(), c);
        let r = split_char(s.drop_first(), c);
        assert(seq![s[0]] + r[0] =~= s);
        assert(split_char(s, c) =~~= seq![s]);
    }
}

/// Splitting `a + [c] + b` when `a` is free of `c` peels `a` off as the
/// first piece.
pub proof fn lemma_split_char_concat(a: Seq<char>, b: Seq<char>, c: char)
    requires
        sep_free(a, c),
    ensures
        split_char(a + seq![c] + b, c) == seq![a] + split_char(b, c),
    decreases a.len(),
{
    let s = a + seq![c] + b;
    if a.len() == 0 {
        assert(s[0] == c);
        assert(s.drop_first() =~= b);
        assert(a =~= Seq::<char>::empty());
        assert(split_char(s, c) =~~= seq![a] + split_char(b, c));
    } else {
        assert(s[0] == a[0]);
        assert(s[0] != c);
        assert(s.drop_first() =~= a.drop_first() + seq![c] + b);
        assert(sep_free(a.drop_first(), c)) by {
            assert(forall|j: int|
                0 <= j < a.drop_first().len() ==> a.drop_first()[j] == a[j + 1]);
        }
        lemma_split_char_concat(a.drop_first(), b, c);
        let r = split_char(s.drop_first(), c);
        lemma_split_char_len(b, c);
        assert(r == seq![a.drop_first()] + split_char(b, c));
        assert(r[0] == a.drop_first());
        assert(seq![s[0]] + r[0] =~= a);
        assert(r.drop_first() =~= split_char(b, c));
        assert(split_char(s, c) =~~= seq![a] + split_char(b, c));
    }
}

/// Splitting `a + [c] + b` when `b` is free of `c` appends `b` as one last
/// piece after the pieces of `a`.
pub proof fn lemma_split_char_concat_last(a: Seq<char>, b: Seq<char>, c: char)
    requires
        sep_free(b, c),
    ensures
        split_char(a + seq![c] + b, c) == split_char(a, c) + seq![b],
    decreases a.len(),
{
    let s = a + seq![c] + b;
    lemma_split_char_no_sep(b, c);
    if a.len() == 0 {
        assert(s[0] == c);
        assert(s.drop_first() =~= b);
        assert(split_char(s, c) =~~= split_char(a, c) + seq![b]);
    } else if a[0] == c {
        assert(s[0] == c);
        assert(s.drop_first() =~= a.drop_first() + seq![c] + b);
        lemma_split_char_concat_last(a.drop_first(), b, c);
        assert(split_char(s, c) =~~= split_char(a, c) + seq![b]);
    } else {
        assert(s[0] == a[0]);
        assert(s.drop_first() =~= a.drop_first() + seq![c] + b);
        lemma_split_char_concat_last(a.drop_first(), b, c);
        let r = split_char(s.drop_first(), c);
        let ra = split_char(a.drop_first(), c);
        lemma_split_char_len(a.drop_first(), c);
        assert(r == ra + seq![b]);
        assert(r[0] == ra[0]);
        assert(seq![s[0]] + r[0] == seq![a[0]] + ra[0]);
        assert(r.drop_first() =~= ra.drop_first() + seq![b]);
        assert(split_char(s, c) =~~= split_char(a, c) + seq![b]);
    }
}

/// Splits a string slice at every occurrence of `sep`, as [`split_char`]
/// does on its view.
pub fn split_str(s: &str, sep: char) -> (r: Vec<String>)
    ensures
        r.deep_view() == split_char(s@, sep),
{
    let n = s.unicode_len();
    let mut parts: Vec<String> = Vec::new();
    let mut start: usize = 0;
    let mut i: usize = 0;
    proof {
        assert(s@.skip(0) =~= s@);
        assert(parts.deep_view() =~~= Seq::<Seq<char>>::empty());
        assert(s@.subrange(0, 0) =~= Seq::<char>::empty());
    }
    while i < n
        invariant
            start <= i <= n,
            n == s@.len(),
            sep_free(s@.subrange(start as int, i as int), sep),
            split_char(s@, sep) == parts.deep_view() + split_char(
                s@.skip(start as int),
                sep,
            ),
        decreases n - i,
    {
        let ch = s.get_char(i);
        if ch == sep {
            let ghost old_parts = parts.deep_view();
            let piece = s.substring_char(start, i);
            parts.push(piece.to_owned());
            proof {
                let a = s@.subrange(start as int, i as int);
                let rest = s@.skip(i as int + 1);
                assert(s@.skip(start as int) =~= a + seq![sep] + rest);
                lemma_split_char_concat(a, rest, sep);
                assert(parts.deep_view() =~~= old_parts + seq![a]);
                assert(parts.deep_view() + split_char(rest, sep) =~~= old_parts
                    + split_char(s@.skip(start as int), sep));
            }
            start = i + 1;
            i = i + 1;
            assert(s@.subrange(start as int, i as int) =~= Seq::<char>::empty());
        } else {
            i = i + 1;
            assert(s@.subrange(start as int, i as int) =~= s@.subrange(
                start as int,
                i as int - 1,
            ).push(s@[i as int - 1]));
        }
    }
    let ghost old_parts = parts.deep_view();
    let piece = s.substring_char(start, n);
    parts.push(piece.to_owned());
    proof {
        assert(s@.subrange(start as int, n as int) =~= s@.skip(start as int));
        lemma_split_char_no_sep(s@.skip(start as int), sep);
        assert(parts.deep_view() =~~= old_parts + seq![s@.skip(start as int)]);
        assert(parts.deep_view() =~~= split_char(s@, sep));
    }
    parts
}

/// The value of a decimal digit character, or 10 for any other character.
pub open spec fn digit_val(ch: char) -> nat {
    if ch == '0' {
        0
    } else if ch == '1' {
        1
    } else if ch == '2' {
        2
    } else if ch == '3' {
        3
    } else if ch == '4' {
        4
    } else if ch == '5' {
        5
    } else if ch == '6' {
        6
    } else if ch == '7' {
        7
    } else if ch == '8' {
        8
    } else if ch == '9' {
        9
    } else {
        10
    }
}

pub open spec fn is_digit(ch: char) -> bool {
    digit_val(ch) < 10
}

/// The digit character for a value below ten.
pub open spec fn digit_char(d: nat) -> char {
    if d == 0 {
        '0'
    } else if d == 1 {
        '1'
    } else if d == 2 {
        '2'
    } else if d == 3 {
        '3'
    } else if d == 4 {
        '4'
    } else if d == 5 {
        '5'
    } else if d == 6 {
        '6'
    } else if d == 7 {
        '7'
    } else if d == 8 {
        '8'
    } else {
        '9'
    }
}

/// The number denoted by `s` read as a big-endian decimal numeral.
pub open spec fn dec_value(s: Seq<char>) -> nat
    decreases s.len(),
{
    if s.len() == 0 {
        0
    } else {
        dec_value(s.drop_last()) * 10 + digit_val(s.last())
    }
}

/// Holds when `s` is a non-empty string of decimal digits.
pub open spec fn is_dec(s: Seq<char>) -> bool {
    s.len() > 0 && forall|j: int| 0 <= j < s.len() ==> is_digit(s[j])
}

/// What parsing a `u64` field of the snapshot yields: defined exactly on
/// non-empty all-digit numerals whose value fits in a `u64`.
pub open spec fn parse_u64_text(s: Seq<char>) -> Option<u64> {
    if is_dec(s) && dec_value(s) <= u64::MAX {
        Some(dec_value(s) as u64)
    } else {
        None
    }
}

/// The canonical decimal numeral of `n`: no sign, no leading zero.
pub open spec fn u64_digits(n: nat) -> Seq<char>
    decreases n,
{
    if n < 10 {
        seq![digit_char(n)]
    } else {
        u64_digits(n / 10).push(digit_char(n % 10))
    }
}

/// The canonical numeral is a parseable numeral denoting `n` back again,
/// and contains digit characters only.
pub proof fn lemma_u64_digits_parse(n: nat)
    ensures
        is_dec(u64_digits(n)),
        dec_value(u64_digits(n)) == n,
        u64_digits(n).len() >= 1,
    decreases n,
{
    if n < 10 {
        let s = u64_digits(n);
        assert(s =~= seq![digit_char(n)]);
        assert(s.drop_last() =~= Seq::<char>::empty());
        assert(dec_value(Seq::<char>::empty()) == 0);
        assert(s.last() == digit_char(n));
        assert(digit_val(digit_char(n)) == n);
        assert(dec_value(s) == 0 * 10 + digit_val(digit_char(n)));
    } else {
        lemma_u64_digits_parse(n / 10);
        let p = u64_digits(n / 10);
        let s = u64_digits(n);
        assert(s.drop_last() =~= p);
        assert(s.last() == digit_char(n % 10));
        assert(digit_val(digit_char(n % 10)) == n % 10);
        assert(dec_value(s) == (n / 10) * 10 + n % 10);
        assert((n / 10) * 10 + n % 10 == n) by (nonlinear_arith);
        assert(forall|j: int| 0 <= j < s.len() ==> is_digit(s[j])) by {
            assert(forall|j: int| 0 <= j < p.len() ==> s[j] == p[j]);
        }
    }
}

/// Digit characters are never one of the snapshot's separators.
pub proof fn lemma_digits_not_sep(n: nat)
    ensures
        sep_free(u64_digits(n), '\t'),
        sep_free(u64_digits(n), '\n'),
        sep_free(u64_digits(n), ','),
{
    lemma_u64_digits_parse(n);
    assert forall|j: int| 0 <= j < u64_digits(n).len() implies u64_digits(n)[j] != '\t'
        && u64_digits(n)[j] != '\n' && u64_digits(n)[j] != ',' by {
        assert(is_digit(u64_digits(n)[j]));
    }
}

/// A prefix of a numeral never denotes more than the whole numeral.
pub proof fn lemma_dec_value_prefix(s: Seq<char>, k: int)
    requires
        0 <= k <= s.len(),
    ensures
        dec_value(s.take(k)) <= dec_value(s),
    decreases s.len(),
{
    if k < s.len() {
        assert(s.take(k) =~= s.drop_last().take(k));
        lemma_dec_value_prefix(s.drop_last(), k);
        assert(dec_value(s.drop_last()) * 10 >= dec_value(s.drop_last()));
    } else {
        assert(s.take(k) =~= s);
    }
}

/// Appends one decimal digit to a string.
fn push_digit(out: &mut String, d: u64)
    requires
        d < 10,
    ensures
        final(out)@ == old(out)@ + seq![digit_char(d as nat)],
{
    if d == 0 {
        proof {
            reveal_strlit("0");
        }
        out.append("0");
    } else if d == 1 {
        proof {
            reveal_strlit("1");
        }
        out.append("1");
    } else if d == 2 {
        proof {
            reveal_strlit("2");
        }
        out.append("2");
    } else if d == 3 {
        proof {
            reveal_strlit("3");
        }
        out.append("3");
    } else if d == 4 {
        proof {
            reveal_strlit("4");
        }
        out.append("4");
    } else if d == 5 {
        proof {
            reveal_strlit("5");
        }
        out.append("5");
    } else if d == 6 {
        proof {
            reveal_strlit("6");
        }
        out.append("6");
    } else if d == 7 {
        proof {
            reveal_strlit("7");
        }
        out.append("7");
    } else if d == 8 {
        proof {
            reveal_strlit("8");
        }
        out.append("8");
    } else {
        proof {
            reveal_strlit("9");
        }
        out.append("9");
    }
}

/// Appends the canonical decimal numeral of `n` to a string.
pub fn push_u64(out: &mut String, n: u64)
    ensures
        final(out)@ == old(out)@ + u64_digits(n as nat),
    decreases n,
{
    if n >= 10 {
        push_u64(out, n / 10);
        push_digit(out, n % 10);
        proof {
            assert(out@ =~= old(out)@ + u64_digits(n as nat));
        }
    } else {
        push_digit(out, n);
    }
}

/// Reads one character as a decimal digit, or reports that it is none.
fn digit_of(ch: char) -> (r: Option<u64>)
    ensures
        r is Some <==> is_digit(ch),
        r matches Some(d) ==> d == digit_val(ch) && d < 10,
{
    if ch == '0' {
        Some(0)
    } else if ch == '1' {
        Some(1)
    } else if ch == '2' {
        Some(2)
    } else if ch == '3' {
        Some(3)
    } else if ch == '4' {
        Some(4)
    } else if ch == '5' {
        Some(5)
    } else if ch == '6' {
        Some(6)
    } else if ch == '7' {
        Some(7)
    } else if ch == '8' {
        Some(8)
    } else if ch == '9' {
        Some(9)
    } else {
        None
    }
}

/// Parses a whole string slice as a decimal `u64`, exactly as
/// [`parse_u64_text`] describes: digits only, value within range.
pub fn parse_u64_str(s: &str) -> (r: Option<u64>)
    ensures
        r == parse_u64_text(s@),
{
    let n = s.unicode_len();
    if n == 0 {
        return None;
    }
    let mut acc: u64 = 0;
    let mut i: usize = 0;
    while i < n
        invariant
            0 < n == s@.len(),
            i <= n,
            acc as nat == dec_value(s@.take(i as int)),
            forall|j: int| 0 <= j < i ==> is_digit(s@[j]),
        decreases n - i,
    {
        let ch = s.get_char(i);
        match digit_of(ch) {
            None => {
                assert(!is_dec(s@));
                return None;
            },
            Some(d) => {
                if acc > (u64::MAX - d) / 10 {
                    proof {
                        let t = s@.take(i as int + 1);
                        assert(t.drop_last() =~= s@.take(i as int));
                        assert(t.last() == s@[i as int]);
                        assert(dec_value(t) == acc * 10 + d);
                        assert(acc * 10 + d > u64::MAX) by (nonlinear_arith)
                            requires
                                acc > (u64::MAX - d) / 10,
                                d < 10,
                        ;
                        lemma_dec_value_prefix(s@, i as int + 1);
                    }
                    return None;
                }
                proof {
                    let t = s@.take(i as int + 1);
                    assert(t.drop_last() =~= s@.take(i as int));
                    assert(t.last() == s@[i as int]);
                    assert(acc * 10 + d <= u64::MAX) by (nonlinear_arith)
                        requires
                            acc <= (u64::MAX - d) / 10,
                            d < 10,
                    ;
                }
                acc = acc * 10 + d;
                i = i + 1;
            },
        }
    }
    proof {
        assert(s@.take(n as int) =~= s@);
    }
    Some(acc)
}

} // verus!
