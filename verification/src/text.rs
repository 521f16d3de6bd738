//! Decimal rendering and parsing of unsigned integers, and the splitting of
//! strings at a separator character.
use vstd::prelude::*;
use vstd::string::*;

verus! {

/// The character of a decimal digit.
pub open spec fn digit_char(d: nat) -> char {
    if d == 0 { '0' }
    else if d == 1 { '1' }
    else if d == 2 { '2' }
    else if d == 3 { '3' }
    else if d == 4 { '4' }
    else if d == 5 { '5' }
    else if d == 6 { '6' }
    else if d == 7 { '7' }
    else if d == 8 { '8' }
    else { '9' }
}

/// The decimal rendering of `n`, without sign or leading zeros (`0` is "0").
pub open spec fn decimal(n: nat) -> Seq<char>
    decreases n,
{
    if n < 10 {
        seq![digit_char(n)]
    } else {
        decimal(n / 10).push(digit_char(n % 10))
    }
}

/// Appends the digit `d` to `s`.
fn push_digit(s: &mut String, d: u64)
    requires
        d < 10,
    ensures
        final(s)@ == old(s)@.push(digit_char(d as nat)),
{
    let lit: &str = if d == 0 {
        proof { reveal_strlit("0"); }
        "0"
    } else if d == 1 {
        proof { reveal_strlit("1"); }
        "1"
    } else if d == 2 {
        proof { reveal_strlit("2"); }
        "2"
    } else if d == 3 {
        proof { reveal_strlit("3"); }
        "3"
    } else if d == 4 {
        proof { reveal_strlit("4"); }
        "4"
    } else if d == 5 {
        proof { reveal_strlit("5"); }
        "5"
    } else if d == 6 {
        proof { reveal_strlit("6"); }
        "6"
    } else if d == 7 {
        proof { reveal_strlit("7"); }
        "7"
    } else if d == 8 {
        proof { reveal_strlit("8"); }
        "8"
    } else {
        proof { reveal_strlit("9"); }
        "9"
    };
    assert(lit@ =~= seq![digit_char(d as nat)]);
    s.append(lit);
}

/// Renders `n` in decimal, as `format!("{}", n)` does.
pub fn to_decimal(n: u64) -> (res: String)
    ensures
        res@ == decimal(n as nat),
    decreases n,
{
    if n < 10 {
        let mut s = String::new();
        push_digit(&mut s, n);
        assert(s@ =~= decimal(n as nat));
        s
    } else {
        let mut s = to_decimal(n / 10);
        push_digit(&mut s, n % 10);
        s
    }
}


/// Whether `c` is an ASCII decimal digit.
pub open spec fn is_digit(c: char) -> bool {
    '0' <= c && c <= '9'
}

/// The value of an ASCII digit.
pub open spec fn digit_value(c: char) -> nat {
    (c as int - '0' as int) as nat
}

/// The value of a string of decimal digits (most significant first).
pub open spec fn digits_value(s: Seq<char>) -> nat
    decreases s.len(),
{
    if s.len() == 0 {
        0
    } else {
        digits_value(s.drop_last()) * 10 + digit_value(s.last())
    }
}

/// Every character of `s` is a decimal digit.
pub open spec fn all_digits(s: Seq<char>) -> bool {
    forall|i: int| 0 <= i < s.len() ==> is_digit(#[trigger] s[i])
}

/// The digits that follow an optional leading `+`.
pub open spec fn unsigned_body(s: Seq<char>) -> Seq<char> {
    if s.len() > 0 && s[0] == '+' { s.drop_first() } else { s }
}

/// What `str::parse::<u32>` gives: an optional `+`, then at least one
/// decimal digit and nothing else, with a value that fits in 32 bits.
pub open spec fn parse_u32_spec(s: Seq<char>) -> Option<u32> {
    let body = unsigned_body(s);
    if body.len() > 0 && all_digits(body) && digits_value(body) <= u32::MAX {
        Some(digits_value(body) as u32)
    } else {
        None
    }
}

/// What `str::parse::<bool>` gives.
pub open spec fn parse_bool_spec(s: Seq<char>) -> Option<bool> {
    if s == "true"@ {
        Some(true)
    } else if s == "false"@ {
        Some(false)
    } else {
        None
    }
}

/// The rendering of a boolean by `format!("{}", b)`.
pub open spec fn bool_text(b: bool) -> Seq<char> {
    if b { "true"@ } else { "false"@ }
}

/// The pieces of `s` between occurrences of `sep`, as `str::split` yields
/// them: one piece more than there are separators, empty pieces included.
pub open spec fn split_spec(s: Seq<char>, sep: char) -> Seq<Seq<char>>
    decreases s.len(),
{
    if s.len() == 0 {
        seq![Seq::<char>::empty()]
    } else {
        let init = split_spec(s.drop_last(), sep);
        if s.last() == sep {
            init.push(Seq::<char>::empty())
        } else {
            init.update(init.len() - 1, init.last().push(s.last()))
        }
    }
}

/// `sep` does not occur in `s`.
pub open spec fn free_of(s: Seq<char>, sep: char) -> bool {
    forall|i: int| 0 <= i < s.len() ==> #[trigger] s[i] != sep
}

/// There is always at least one piece.
pub proof fn lemma_split_nonempty(s: Seq<char>, sep: char)
    ensures
        split_spec(s, sep).len() >= 1,
    decreases s.len(),
{
    if s.len() > 0 {
        lemma_split_nonempty(s.drop_last(), sep);
    }
}

/// Appending text free of the separator extends the last piece.
pub proof fn lemma_split_append_free(x: Seq<char>, y: Seq<char>, sep: char)
    requires
        free_of(y, sep),
    ensures
        split_spec(x + y, sep) == split_spec(x, sep).update(
            split_spec(x, sep).len() - 1,
            split_spec(x, sep).last() + y,
        ),
    decreases y.len(),
{
    lemma_split_nonempty(x, sep);
    if y.len() == 0 {
        assert(x + y =~= x);
        assert(split_spec(x, sep).last() + y =~= split_spec(x, sep).last());
        assert(split_spec(x, sep).update(split_spec(x, sep).len() - 1, split_spec(x, sep).last())
            =~= split_spec(x, sep));
    } else {
        let y0 = y.drop_last();
        assert(free_of(y0, sep));
        lemma_split_append_free(x, y0, sep);
        assert((x + y).drop_last() =~= x + y0);
        assert((x + y).last() == y.last());
        assert(y.last() == y[y.len() - 1]);
        lemma_split_nonempty(x + y0, sep);
        assert(split_spec(x, sep).last() + y0 + seq![y.last()] =~= split_spec(x, sep).last() + y);
        assert((split_spec(x, sep).last() + y0).push(y.last()) =~= split_spec(x, sep).last() + y);
        assert(split_spec(x + y, sep) =~= split_spec(x, sep).update(
            split_spec(x, sep).len() - 1,
            split_spec(x, sep).last() + y,
        ));
    }
}

/// Splitting text free of the separator gives the text itself.
pub proof fn lemma_split_free(y: Seq<char>, sep: char)
    requires
        free_of(y, sep),
    ensures
        split_spec(y, sep) == seq![y],
{
    lemma_split_append_free(Seq::<char>::empty(), y, sep);
    assert(Seq::<char>::empty() + y =~= y);
    assert(Seq::<char>::empty() + y =~= y);
    assert(seq![Seq::<char>::empty()].update(0, Seq::<char>::empty() + y) =~= seq![y]);
}

/// Splitting `x`, a separator and separator-free `y` gives the pieces of
/// `x` followed by `y`.
pub proof fn lemma_split_then(x: Seq<char>, y: Seq<char>, sep: char)
    requires
        free_of(y, sep),
    ensures
        split_spec(x.push(sep) + y, sep) == split_spec(x, sep).push(y),
{
    lemma_split_nonempty(x, sep);
    assert(x.push(sep).drop_last() =~= x);
    assert(split_spec(x.push(sep), sep) == split_spec(x, sep).push(Seq::<char>::empty()));
    lemma_split_append_free(x.push(sep), y, sep);
    assert(Seq::<char>::empty() + y =~= y);
    assert(split_spec(x, sep).push(Seq::<char>::empty()).update(
        split_spec(x, sep).len() as int,
        Seq::<char>::empty() + y,
    ) =~= split_spec(x, sep).push(y));
}

/// The pieces put back together, `sep` between each two.
pub open spec fn join_pieces(pieces: Seq<Seq<char>>, sep: char) -> Seq<char>
    decreases pieces.len(),
{
    if pieces.len() == 0 {
        Seq::empty()
    } else if pieces.len() == 1 {
        pieces[0]
    } else {
        join_pieces(pieces.drop_last(), sep).push(sep) + pieces.last()
    }
}

/// Splitting loses nothing and cuts only at the separator: the pieces hold
/// no separator, and put back together with it they give the text again.
pub proof fn law_split_join(s: Seq<char>, sep: char)
    ensures
        join_pieces(split_spec(s, sep), sep) == s,
        forall|i: int| 0 <= i < split_spec(s, sep).len() ==> free_of(#[trigger] split_spec(s, sep)[i], sep),
    decreases s.len(),
{
    lemma_split_nonempty(s, sep);
    if s.len() > 0 {
        let x = s.drop_last();
        let c = s.last();
        let init = split_spec(x, sep);
        law_split_join(x, sep);
        lemma_split_nonempty(x, sep);
        if c == sep {
            let ps = init.push(Seq::<char>::empty());
            assert(ps.drop_last() =~= init);
            assert(join_pieces(ps, sep) =~= s);
            assert forall|i: int| 0 <= i < ps.len() implies free_of(#[trigger] ps[i], sep) by {
                if i < init.len() {
                    assert(ps[i] == init[i]);
                }
            }
        } else {
            let l = init.len() - 1;
            let ps = init.update(l, init.last().push(c));
            assert forall|i: int| 0 <= i < ps.len() implies free_of(#[trigger] ps[i], sep) by {
                if i < l {
                    assert(ps[i] == init[i]);
                } else {
                    assert(free_of(init[l], sep));
                    assert forall|j: int| 0 <= j < ps[i].len() implies #[trigger] ps[i][j] != sep by {
                        if j < init[l].len() {
                            assert(ps[i][j] == init[l][j]);
                        }
                    }
                }
            }
            if init.len() == 1 {
                assert(join_pieces(init, sep) == init[0]);
                assert(join_pieces(ps, sep) =~= s);
            } else {
                assert(ps.drop_last() =~= init.drop_last());
                assert(join_pieces(init, sep) == join_pieces(init.drop_last(), sep).push(sep) + init.last());
                assert(ps.last() == init.last().push(c));
                assert(join_pieces(ps, sep) == join_pieces(init.drop_last(), sep).push(sep) + init.last().push(c));
                assert(join_pieces(init.drop_last(), sep).push(sep) + init.last().push(c) =~= (join_pieces(
                    init.drop_last(),
                    sep,
                ).push(sep) + init.last()).push(c));
                assert(s =~= x.push(c));
                assert(join_pieces(ps, sep) =~= s);
            }
        }
    }
}

/// Splits `s` at every occurrence of `sep`, as `s.split(sep)` does.
pub fn split(s: &str, sep: char) -> (res: Vec<String>)
    ensures
        res@.map_values(|p: String| p@) == split_spec(s@, sep),
{
    let n = s.unicode_len();
    let mut pieces: Vec<String> = Vec::new();
    let mut start: usize = 0;
    let mut i: usize = 0;
    assert(s@.take(0) =~= Seq::<char>::empty());
    assert(s@.subrange(0, 0) =~= Seq::<char>::empty());
    while i < n
        invariant
            n == s@.len(),
            start <= i <= n,
            split_spec(s@.take(i as int), sep)
                == pieces@.map_values(|p: String| p@).push(s@.subrange(start as int, i as int)),
        decreases n - i,
    {
        let c = s.get_char(i);
        let ghost prev = pieces@.map_values(|p: String| p@);
        assert(s@.take(i + 1).drop_last() =~= s@.take(i as int));
        assert(s@.take(i + 1).last() == c);
        if c == sep {
            let piece = String::from_str(s.substring_char(start, i));
            pieces.push(piece);
            assert(pieces@.map_values(|p: String| p@) =~= prev.push(s@.subrange(start as int, i as int)));
            assert(s@.subrange(i + 1, i + 1) =~= Seq::<char>::empty());
            start = i + 1;
        } else {
            assert(s@.subrange(start as int, i + 1) =~= s@.subrange(start as int, i as int).push(c));
        }
        i = i + 1;
    }
    let last = String::from_str(s.substring_char(start, n));
    let ghost prev = pieces@.map_values(|p: String| p@);
    pieces.push(last);
    assert(s@.take(n as int) =~= s@);
    assert(pieces@.map_values(|p: String| p@) =~= prev.push(s@.subrange(start as int, n as int)));
    pieces
}


/// A longer run of digits is worth at least as much as its prefix.
pub proof fn lemma_digits_value_prefix(s: Seq<char>, k: int)
    requires
        0 <= k <= s.len(),
    ensures
        digits_value(s.take(k)) <= digits_value(s),
    decreases s.len(),
{
    if k < s.len() {
        lemma_digits_value_prefix(s.drop_last(), k);
        assert(s.drop_last().take(k) =~= s.take(k));
    } else {
        assert(s.take(k) =~= s);
    }
}

/// Parses `s` as `s.parse::<u32>().ok()` does.
pub fn parse_u32(s: &str) -> (res: Option<u32>)
    ensures
        res == parse_u32_spec(s@),
{
    let n = s.unicode_len();
    let mut i: usize = 0;
    if n > 0 && s.get_char(0) == '+' {
        i = 1;
    }
    let start = i;
    let ghost body = unsigned_body(s@);
    assert(body =~= s@.subrange(start as int, n as int));
    if i == n {
        return None;
    }
    let mut acc: u64 = 0;
    assert(body.take(0) =~= Seq::<char>::empty());
    while i < n
        invariant
            n == s@.len(),
            start <= i <= n,
            body == s@.subrange(start as int, n as int),
            body == unsigned_body(s@),
            body.len() > 0,
            all_digits(body.take(i - start)),
            acc as nat == digits_value(body.take(i - start)),
            acc <= u32::MAX,
        decreases n - i,
    {
        let c = s.get_char(i);
        assert(body[i - start] == c);
        if !('0' <= c && c <= '9') {
            assert(!is_digit(body[i - start]));
            assert(!all_digits(body));
            return None;
        }
        let d: u64 = (c as u32 - '0' as u32) as u64;
        assert(body.take(i - start + 1).drop_last() =~= body.take(i - start));
        assert(body.take(i - start + 1).last() == c);
        assert(digit_value(c) == d);
        assert(digits_value(body.take(i - start + 1)) == digits_value(body.take(i - start)) * 10 + d);
        acc = acc * 10 + d;
        assert(all_digits(body.take(i - start + 1)));
        if acc > u32::MAX as u64 {
            proof {
                lemma_digits_value_prefix(body, i - start + 1);
                assert(digits_value(body) > u32::MAX);
            }
            return None;
        }
        i = i + 1;
    }
    assert(body.take(n - start) =~= body);
    Some(acc as u32)
}

/// Parses `s` as `s.parse::<bool>().ok()` does.
pub fn parse_bool(s: &str) -> (res: Option<bool>)
    ensures
        res == parse_bool_spec(s@),
{
    let owned = String::from_str(s);
    if owned == String::from_str("true") {
        Some(true)
    } else if owned == String::from_str("false") {
        Some(false)
    } else {
        None
    }
}

/// Renders `b` as `format!("{}", b)` does.
pub fn bool_to_text(b: bool) -> (res: String)
    ensures
        res@ == bool_text(b),
{
    if b {
        String::from_str("true")
    } else {
        String::from_str("false")
    }
}

/// The character of a digit is worth that digit.
pub proof fn lemma_digit_char(d: nat)
    requires
        d < 10,
    ensures
        is_digit(digit_char(d)),
        digit_value(digit_char(d)) == d,
        digit_char(d) != '+',
{
}

/// A decimal rendering is made of digits, does not start with `+`, and is
/// worth the number rendered.
pub proof fn lemma_decimal_digits(n: nat)
    ensures
        decimal(n).len() > 0,
        all_digits(decimal(n)),
        digits_value(decimal(n)) == n,
        decimal(n)[0] != '+',
    decreases n,
{
    lemma_digit_char(n % 10);
    assert((n / 10) * 10 + n % 10 == n);
    if n >= 10 {
        lemma_decimal_digits(n / 10);
        assert(decimal(n).drop_last() =~= decimal(n / 10));
        assert(decimal(n).last() == digit_char(n % 10));
        assert(digits_value(decimal(n)) == digits_value(decimal(n / 10)) * 10 + digit_value(digit_char(n % 10)));
        assert(decimal(n)[0] == decimal(n / 10)[0]);
        assert forall|i: int| 0 <= i < decimal(n).len() implies is_digit(#[trigger] decimal(n)[i]) by {
            if i < decimal(n).len() - 1 {
                assert(decimal(n)[i] == decimal(n / 10)[i]);
            }
        }
    } else {
        assert(seq![digit_char(n)].drop_last() =~= Seq::<char>::empty());
        assert(n % 10 == n);
        assert(digits_value(decimal(n)) == digits_value(Seq::<char>::empty()) * 10 + digit_value(digit_char(n)));
    }
}

/// Parsing the decimal rendering of a 32-bit number gives the number back.
pub proof fn lemma_parse_decimal(n: u32)
    ensures
        parse_u32_spec(decimal(n as nat)) == Some(n),
{
    lemma_decimal_digits(n as nat);
    assert(unsigned_body(decimal(n as nat)) == decimal(n as nat));
}

/// Parsing the rendering of a boolean gives the boolean back.
pub proof fn lemma_parse_bool_text(b: bool)
    ensures
        parse_bool_spec(bool_text(b)) == Some(b),
{
    reveal_strlit("true");
    reveal_strlit("false");
    assert("true"@ != "false"@) by {
        assert("true"@.len() != "false"@.len());
    }
}

} // verus!
