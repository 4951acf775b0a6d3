//! Character-level scanning shared by the codec and the parsers: whitespace,
//! names, decimal digits, and quoted bodies with escape sequences.
//!
//! All specification scanners work on the front of a `Seq<char>` suffix and
//! report how many characters they consume; the executable scanners mirror
//! them on `&[char]` with an index.
use crate::error::{CallError, ErrModel};
use crate::value::{is_name_char, is_name_start};
use vstd::prelude::*;

verus! {

broadcast use vstd::seq::group_seq_axioms, vstd::seq_lib::group_seq_lib_default, vstd::std_specs::vec::group_vec_axioms;

/// Whitespace, insignificant between tokens.
pub open spec fn is_ws(c: char) -> bool {
    c == ' ' || c == '\t' || c == '\n' || c == '\r'
}

/// A decimal digit.
pub open spec fn is_digit(c: char) -> bool {
    '0' <= c && c <= '9'
}

/// Numeric value of a decimal digit.
pub open spec fn digit_val(c: char) -> int {
    c as int - 48
}

/// The decimal digit character for `d` in `0..10`.
pub open spec fn digit_char(d: int) -> char {
    if d == 0 {
        '0'
    } else if d == 1 {
        '1'
    } else if d == 2 {
        '2'
    } else if d == 3 {
        '3'
    } else if d == 4 {
        '4'
    } else if d == 5 {
        '5'
    } else if d == 6 {
        '6'
    } else if d == 7 {
        '7'
    } else if d == 8 {
        '8'
    } else {
        '9'
    }
}

/// Count of leading whitespace characters.
pub open spec fn ws_count(s: Seq<char>) -> int
    decreases s.len(),
{
    if s.len() > 0 && is_ws(s[0]) {
        1 + ws_count(s.drop_first())
    } else {
        0
    }
}

/// Count of leading decimal digits.
pub open spec fn digits_count(s: Seq<char>) -> int
    decreases s.len(),
{
    if s.len() > 0 && is_digit(s[0]) {
        1 + digits_count(s.drop_first())
    } else {
        0
    }
}

/// Count of leading name characters.
pub open spec fn name_count(s: Seq<char>) -> int
    decreases s.len(),
{
    if s.len() > 0 && is_name_char(s[0]) {
        1 + name_count(s.drop_first())
    } else {
        0
    }
}

/// Value of a sequence of decimal digits, most significant first.
pub open spec fn dval(s: Seq<char>) -> int
    decreases s.len(),
{
    if s.len() == 0 {
        0
    } else {
        dval(s.drop_last()) * 10 + digit_val(s.last())
    }
}

/// Canonical decimal rendering of `n >= 0`, without leading zeros
/// (except for `0` itself).
pub open spec fn fmt_u64(n: int) -> Seq<char>
    decreases n,
{
    if n < 10 {
        seq![digit_char(n)]
    } else {
        fmt_u64(n / 10).push(digit_char(n % 10))
    }
}

/// Canonical decimal rendering of a signed integer.
pub open spec fn fmt_int(n: int) -> Seq<char> {
    if n < 0 {
        seq!['-'] + fmt_u64(-n)
    } else {
        fmt_u64(n)
    }
}

/// The scanners consume no more than the whole suffix.
pub proof fn lemma_counts_bounded(s: Seq<char>)
    ensures
        0 <= ws_count(s) <= s.len(),
        0 <= digits_count(s) <= s.len(),
        0 <= name_count(s) <= s.len(),
    decreases s.len(),
{
    if s.len() > 0 {
        lemma_counts_bounded(s.drop_first());
    }
}

/// What the scanners skip is what they say: the counted prefix consists of
/// matching characters and the first character after it does not match.
pub proof fn lemma_digits_count_spec(s: Seq<char>)
    ensures
        forall|i: int| 0 <= i < digits_count(s) ==> is_digit(#[trigger] s[i]),
        digits_count(s) < s.len() ==> !is_digit(s[digits_count(s)]),
    decreases s.len(),
{
    lemma_counts_bounded(s);
    if s.len() > 0 && is_digit(s[0]) {
        lemma_digits_count_spec(s.drop_first());
        lemma_counts_bounded(s.drop_first());
        assert forall|i: int| 0 <= i < digits_count(s) implies is_digit(#[trigger] s[i]) by {
            if i > 0 {
                assert(s[i] == s.drop_first()[i - 1]);
            }
        }
    }
}

/// Likewise for name characters.
pub proof fn lemma_name_count_spec(s: Seq<char>)
    ensures
        forall|i: int| 0 <= i < name_count(s) ==> is_name_char(#[trigger] s[i]),
        name_count(s) < s.len() ==> !is_name_char(s[name_count(s)]),
    decreases s.len(),
{
    lemma_counts_bounded(s);
    if s.len() > 0 && is_name_char(s[0]) {
        lemma_name_count_spec(s.drop_first());
        lemma_counts_bounded(s.drop_first());
        assert forall|i: int| 0 <= i < name_count(s) implies is_name_char(#[trigger] s[i]) by {
            if i > 0 {
                assert(s[i] == s.drop_first()[i - 1]);
            }
        }
    }
}

/// Scanning a digit run followed by a non-digit consumes exactly the run.
pub proof fn lemma_digits_count_exact(s: Seq<char>, t: Seq<char>)
    requires
        forall|i: int| 0 <= i < s.len() ==> is_digit(#[trigger] s[i]),
        t.len() == 0 || !is_digit(t[0]),
    ensures
        digits_count(s + t) == s.len(),
    decreases s.len(),
{
    if s.len() == 0 {
        assert(s + t =~= t);
    } else {
        assert((s + t)[0] == s[0]);
        assert((s + t).drop_first() =~= s.drop_first() + t);
        lemma_digits_count_exact(s.drop_first(), t);
    }
}

/// Scanning a name-character run followed by a non-name character consumes
/// exactly the run.
pub proof fn lemma_name_count_exact(s: Seq<char>, t: Seq<char>)
    requires
        forall|i: int| 0 <= i < s.len() ==> is_name_char(#[trigger] s[i]),
        t.len() == 0 || !is_name_char(t[0]),
    ensures
        name_count(s + t) == s.len(),
    decreases s.len(),
{
    if s.len() == 0 {
        assert(s + t =~= t);
    } else {
        assert((s + t)[0] == s[0]);
        assert((s + t).drop_first() =~= s.drop_first() + t);
        lemma_name_count_exact(s.drop_first(), t);
    }
}

/// The value of a digit prefix only depends on the prefix.
pub proof fn lemma_dval_prefix(s: Seq<char>, t: Seq<char>, n: int)
    requires
        0 <= n <= s.len(),
        s.len() <= t.len(),
        forall|i: int| 0 <= i < s.len() ==> s[i] == t[i],
    ensures
        dval(s.take(n)) == dval(t.take(n)),
    decreases n,
{
    if n > 0 {
        assert(s.take(n).drop_last() =~= s.take(n - 1));
        assert(t.take(n).drop_last() =~= t.take(n - 1));
        assert(s.take(n).last() == t.take(n).last());
        lemma_dval_prefix(s, t, n - 1);
    }
}

/// The value of a digit prefix is nonnegative.
pub proof fn lemma_dval_nonneg(s: Seq<char>, k: int)
    requires
        0 <= k <= s.len(),
        forall|i: int| 0 <= i < s.len() ==> is_digit(#[trigger] s[i]),
    ensures
        dval(s.take(k)) >= 0,
    decreases k,
{
    if k > 0 {
        assert(s.take(k).drop_last() =~= s.take(k - 1));
        assert(s.take(k).last() == s[k - 1]);
        lemma_dval_nonneg(s, k - 1);
    }
}

/// Digit values grow with the prefix length.
pub proof fn lemma_dval_mono(s: Seq<char>, k: int, m: int)
    requires
        0 <= k <= m <= s.len(),
        forall|i: int| 0 <= i < s.len() ==> is_digit(#[trigger] s[i]),
    ensures
        dval(s.take(k)) <= dval(s.take(m)),
    decreases m,
{
    if k < m {
        lemma_dval_mono(s, k, m - 1);
        lemma_dval_nonneg(s, m - 1);
        assert(s.take(m).drop_last() =~= s.take(m - 1));
        assert(s.take(m).last() == s[m - 1]);
    }
}

/// The canonical decimal rendering consists of digits and begins with a
/// nonzero digit unless the number is zero.
pub proof fn lemma_fmt_u64_digits(n: int)
    requires
        n >= 0,
    ensures
        fmt_u64(n).len() >= 1,
        forall|i: int| 0 <= i < fmt_u64(n).len() ==> is_digit(#[trigger] fmt_u64(n)[i]),
    decreases n,
{
    if n >= 10 {
        lemma_fmt_u64_digits(n / 10);
    }
}

/// A digit character reads back as its digit.
pub proof fn lemma_digit_char_val(d: int)
    requires
        0 <= d < 10,
    ensures
        digit_val(digit_char(d)) == d,
        is_digit(digit_char(d)),
{
}

/// Reading back the canonical decimal rendering gives the number.
pub proof fn lemma_fmt_u64_dval(n: int)
    requires
        n >= 0,
    ensures
        dval(fmt_u64(n)) == n,
    decreases n,
{
    if n < 10 {
        assert(fmt_u64(n) =~= seq![digit_char(n)]);
        assert(fmt_u64(n).drop_last() =~= Seq::<char>::empty());
        lemma_digit_char_val(n);
        assert(fmt_u64(n).last() == digit_char(n));
        assert(dval(Seq::<char>::empty()) == 0);
        assert(dval(fmt_u64(n)) == dval(fmt_u64(n).drop_last()) * 10 + digit_val(
            fmt_u64(n).last(),
        ));
        assert(dval(fmt_u64(n)) == n);
    } else {
        lemma_fmt_u64_dval(n / 10);
        assert(fmt_u64(n) =~= fmt_u64(n / 10).push(digit_char(n % 10)));
        assert(fmt_u64(n).drop_last() =~= fmt_u64(n / 10));
        assert(fmt_u64(n).last() == digit_char(n % 10));
        lemma_digit_char_val(n % 10);
        assert(dval(fmt_u64(n)) == (n / 10) * 10 + (n % 10));
        vstd::arithmetic::div_mod::lemma_fundamental_div_mod(n, 10);
        assert(n == 10 * (n / 10) + n % 10);
        assert(dval(fmt_u64(n)) == n);
    }
}

/// Escape `c` for inclusion in a body quoted by `q`: backslashes and the
/// quote itself get a backslash, everything else stands as itself.
pub open spec fn esc_char(c: char, q: char) -> Seq<char> {
    if c == '\\' || c == q {
        seq!['\\', c]
    } else {
        seq![c]
    }
}

/// Canonical escaped body of `s` under quote `q`.
pub open spec fn esc_body(s: Seq<char>, q: char) -> Seq<char>
    decreases s.len(),
{
    if s.len() == 0 {
        Seq::empty()
    } else {
        esc_char(s[0], q) + esc_body(s.drop_first(), q)
    }
}

/// Decoding of a single escape character; `None` is an invalid escape.
pub open spec fn unesc(c: char) -> Option<char> {
    if c == '\\' {
        Some('\\')
    } else if c == '"' {
        Some('"')
    } else if c == '\'' {
        Some('\'')
    } else if c == 'n' {
        Some('\n')
    } else if c == 'r' {
        Some('\r')
    } else if c == 't' {
        Some('\t')
    } else {
        None
    }
}

/// Parse the body of a quoted literal from the front of `s` up to an
/// unescaped closing quote `q`, which is not consumed. Returns the decoded
/// body and the count of characters consumed before the quote.
pub open spec fn sp_body(s: Seq<char>, q: char) -> Result<(Seq<char>, int), ErrModel>
    decreases s.len(),
{
    if s.len() == 0 {
        Err(ErrModel::Syntax)
    } else if s[0] == q {
        Ok((Seq::empty(), 0))
    } else if s[0] == '\\' {
        if s.len() < 2 {
            Err(ErrModel::Syntax)
        } else {
            match unesc(s[1]) {
                None => Err(ErrModel::Literal),
                Some(c) => match sp_body(s.skip(2), q) {
                    Err(e) => Err(e),
                    Ok((body, k)) => Ok((seq![c] + body, 2 + k)),
                },
            }
        }
    } else {
        match sp_body(s.drop_first(), q) {
            Err(e) => Err(e),
            Ok((body, k)) => Ok((seq![s[0]] + body, 1 + k)),
        }
    }
}

/// A parsed body never consumes more than the suffix it was given.
pub proof fn lemma_sp_body_bound(s: Seq<char>, q: char)
    ensures
        match sp_body(s, q) {
            Ok((body, k)) => 0 <= k < s.len() && s[k] == q,
            Err(_) => true,
        },
    decreases s.len(),
{
    if s.len() == 0 {
    } else if s[0] == q {
    } else if s[0] == '\\' {
        if s.len() >= 2 {
            lemma_sp_body_bound(s.skip(2), q);
        }
    } else {
        lemma_sp_body_bound(s.drop_first(), q);
    }
}

/// Round trip of quoted bodies: parsing the canonical escaped body, with
/// the closing quote and anything after it appended, yields the original
/// text and stops at the quote.
pub proof fn lemma_body_round(s: Seq<char>, q: char, rest: Seq<char>)
    requires
        q == '"' || q == '\'',
    ensures
        sp_body(esc_body(s, q) + seq![q] + rest, q) == Ok::<_, ErrModel>(
            (s, esc_body(s, q).len() as int),
        ),
    decreases s.len(),
{
    let input = esc_body(s, q) + seq![q] + rest;
    if s.len() == 0 {
        assert(input =~= seq![q] + rest);
        assert(input[0] == q);
        assert(s =~= Seq::<char>::empty());
        assert(sp_body(input, q) == Ok::<_, ErrModel>((Seq::<char>::empty(), 0int)));
    } else {
        let c = s[0];
        let s1 = s.drop_first();
        lemma_body_round(s1, q, rest);
        let inner = esc_body(s1, q) + seq![q] + rest;
        if c == '\\' || c == q {
            assert(esc_body(s, q) =~= seq!['\\', c] + esc_body(s1, q));
            assert(input =~= seq!['\\', c] + inner);
            assert(input[0] == '\\');
            assert(input[1] == c);
            assert(unesc(c) == Some(c));
            assert(input.skip(2) =~= inner);
            assert(seq![c] + s1 =~= s);
            assert(sp_body(input, q) == Ok::<_, ErrModel>((s, esc_body(s, q).len() as int)));
        } else {
            assert(esc_body(s, q) =~= seq![c] + esc_body(s1, q));
            assert(input =~= seq![c] + inner);
            assert(input[0] == c);
            assert(input.drop_first() =~= inner);
            assert(seq![c] + s1 =~= s);
            assert(sp_body(input, q) == Ok::<_, ErrModel>((s, esc_body(s, q).len() as int)));
        }
    }
}

/// Escaping distributes over appending one character.
pub proof fn lemma_esc_body_snoc(s: Seq<char>, c: char, q: char)
    ensures
        esc_body(s.push(c), q) == esc_body(s, q) + esc_char(c, q),
    decreases s.len(),
{
    if s.len() == 0 {
        assert(s.push(c).drop_first() =~= Seq::<char>::empty());
        assert(s.push(c)[0] == c);
        assert(esc_body(Seq::<char>::empty(), q) =~= Seq::<char>::empty());
        assert(esc_body(s.push(c), q) =~= esc_char(c, q) + Seq::<char>::empty());
        assert(esc_body(s, q) =~= Seq::<char>::empty());
        assert(esc_body(s, q) + esc_char(c, q) =~= esc_char(c, q));
        assert(esc_body(s.push(c), q) =~= esc_body(s, q) + esc_char(c, q));
    } else {
        assert(s.push(c)[0] == s[0]);
        assert(s.push(c).drop_first() =~= s.drop_first().push(c));
        lemma_esc_body_snoc(s.drop_first(), c, q);
        assert(esc_body(s.push(c), q) =~= esc_char(s[0], q) + esc_body(s.drop_first().push(c), q));
        assert(esc_body(s.push(c), q) =~= esc_char(s[0], q) + (esc_body(s.drop_first(), q)
            + esc_char(c, q)));
        assert(esc_char(s[0], q) + (esc_body(s.drop_first(), q) + esc_char(c, q)) =~= (esc_char(
            s[0],
            q,
        ) + esc_body(s.drop_first(), q)) + esc_char(c, q));
        assert(esc_body(s.push(c), q) =~= esc_body(s, q) + esc_char(c, q));
    }
}

/// Executable test for whitespace.
pub fn is_ws_x(c: char) -> (r: bool)
    ensures
        r == is_ws(c),
{
    c == ' ' || c == '\t' || c == '\n' || c == '\r'
}

/// Executable test for a decimal digit.
pub fn is_digit_x(c: char) -> (r: bool)
    ensures
        r == is_digit(c),
{
    '0' <= c && c <= '9'
}

/// Executable test for a name character.
pub fn is_name_char_x(c: char) -> (r: bool)
    ensures
        r == is_name_char(c),
{
    ('a' <= c && c <= 'z') || ('A' <= c && c <= 'Z') || ('0' <= c && c <= '9') || c == '-' || c
        == '_'
}

/// Advance `i` over leading whitespace.
pub fn scan_ws(s: &[char], i: usize) -> (j: usize)
    requires
        i <= s@.len(),
    ensures
        j == i + ws_count(s@.skip(i as int)),
        i <= j <= s@.len(),
    decreases s@.len() - i,
{
    proof {
        lemma_counts_bounded(s@.skip(i as int));
    }
    if i < s.len() && is_ws_x(s[i]) {
        proof {
            assert(s@.skip(i as int)[0] == s@[i as int]);
            assert(s@.skip(i as int).drop_first() =~= s@.skip(i as int + 1));
        }
        scan_ws(s, i + 1)
    } else {
        proof {
            if i < s@.len() {
                assert(s@.skip(i as int)[0] == s@[i as int]);
            }
        }
        i
    }
}

/// Advance `i` over leading name characters.
pub fn scan_name(s: &[char], i: usize) -> (j: usize)
    requires
        i <= s@.len(),
    ensures
        j == i + name_count(s@.skip(i as int)),
        i <= j <= s@.len(),
    decreases s@.len() - i,
{
    proof {
        lemma_counts_bounded(s@.skip(i as int));
    }
    if i < s.len() && is_name_char_x(s[i]) {
        proof {
            assert(s@.skip(i as int)[0] == s@[i as int]);
            assert(s@.skip(i as int).drop_first() =~= s@.skip(i as int + 1));
        }
        scan_name(s, i + 1)
    } else {
        proof {
            if i < s@.len() {
                assert(s@.skip(i as int)[0] == s@[i as int]);
            }
        }
        i
    }
}

/// Advance `i` over leading decimal digits.
pub fn scan_digits(s: &[char], i: usize) -> (j: usize)
    requires
        i <= s@.len(),
    ensures
        j == i + digits_count(s@.skip(i as int)),
        i <= j <= s@.len(),
    decreases s@.len() - i,
{
    proof {
        lemma_counts_bounded(s@.skip(i as int));
    }
    if i < s.len() && is_digit_x(s[i]) {
        proof {
            assert(s@.skip(i as int)[0] == s@[i as int]);
            assert(s@.skip(i as int).drop_first() =~= s@.skip(i as int + 1));
        }
        scan_digits(s, i + 1)
    } else {
        proof {
            if i < s@.len() {
                assert(s@.skip(i as int)[0] == s@[i as int]);
            }
        }
        i
    }
}

/// The digit character for `d` in `0..10`.
pub fn digit_char_x(d: u64) -> (c: char)
    requires
        d < 10,
    ensures
        c == digit_char(d as int),
{
    if d == 0 {
        '0'
    } else if d == 1 {
        '1'
    } else if d == 2 {
        '2'
    } else if d == 3 {
        '3'
    } else if d == 4 {
        '4'
    } else if d == 5 {
        '5'
    } else if d == 6 {
        '6'
    } else if d == 7 {
        '7'
    } else if d == 8 {
        '8'
    } else {
        '9'
    }
}

/// Append the canonical decimal rendering of `n` to `out`.
pub fn fmt_u64_x(n: u64, out: &mut Vec<char>)
    ensures
        final(out)@ == old(out)@ + fmt_u64(n as int),
    decreases n,
{
    if n < 10 {
        out.push(digit_char_x(n));
        assert(out@ =~= old(out)@ + fmt_u64(n as int));
    } else {
        fmt_u64_x(n / 10, out);
        out.push(digit_char_x(n % 10));
        assert(out@ =~= old(out)@ + fmt_u64(n as int));
    }
}

/// Append the canonical decimal rendering of signed `x` to `out`.
pub fn fmt_i64_x(x: i64, out: &mut Vec<char>)
    ensures
        final(out)@ == old(out)@ + fmt_int(x as int),
{
    if x >= 0 {
        fmt_u64_x(x as u64, out);
    } else if x == i64::MIN {
        out.push('-');
        fmt_u64_x(9223372036854775808u64, out);
        assert(out@ =~= old(out)@ + fmt_int(x as int));
    } else {
        out.push('-');
        fmt_u64_x((-x) as u64, out);
        assert(out@ =~= old(out)@ + fmt_int(x as int));
    }
}

/// Decode the digit run `s[i..j]` when its value fits in a 64-bit
/// unsigned integer; report overflow otherwise.
pub fn digits_to_u64(s: &[char], i: usize, j: usize) -> (r: Option<u64>)
    requires
        i <= j <= s@.len(),
        forall|k: int| i <= k < j ==> is_digit(#[trigger] s@[k]),
    ensures
        ({
            let val = dval(s@.skip(i as int).take(j - i));
            match r {
                Some(v) => v == val,
                None => val > u64::MAX,
            }
        }),
{
    let ghost dd = s@.skip(i as int).take(j - i);
    proof {
        assert forall|k: int| 0 <= k < dd.len() implies is_digit(#[trigger] dd[k]) by {
            assert(dd[k] == s@[i + k]);
        }
    }
    let mut acc: u64 = 0;
    let mut k: usize = i;
    while k < j
        invariant
            i <= k <= j <= s@.len(),
            dd == s@.skip(i as int).take(j - i),
            dd.len() == j - i,
            forall|k2: int| 0 <= k2 < dd.len() ==> is_digit(#[trigger] dd[k2]),
            forall|k2: int| i <= k2 < j ==> is_digit(#[trigger] s@[k2]),
            acc == dval(dd.take(k - i)),
        decreases j - k,
    {
        let c = s[k];
        proof {
            assert(dd[k - i] == s@[k as int]);
            assert(is_digit(c));
        }
        let dv: u64 = (c as u32 as u64) - 48;
        proof {
            assert(dv == digit_val(c));
            assert(dd.take(k - i + 1).drop_last() =~= dd.take(k - i));
            assert(dd.take(k - i + 1).last() == dd[k - i]);
            lemma_dval_nonneg(dd, k - i);
        }
        if acc > (u64::MAX - dv) / 10 {
            proof {
                assert(dval(dd.take(k - i + 1)) == acc * 10 + dv);
                assert(acc * 10 + dv > u64::MAX) by (nonlinear_arith)
                    requires
                        acc > (u64::MAX - dv) / 10,
                        dv <= 9,
                ;
                lemma_dval_mono(dd, k - i + 1, j - i);
                assert(dd.take(j - i) =~= dd);
            }
            return None;
        }
        proof {
            assert(acc * 10 + dv <= u64::MAX) by (nonlinear_arith)
                requires
                    acc <= (u64::MAX - dv) / 10,
                    dv <= 9,
            ;
            assert(dval(dd.take(k - i + 1)) == acc * 10 + dv);
        }
        acc = acc * 10 + dv;
        k = k + 1;
    }
    proof {
        assert(dd.take(j - i) =~= dd);
    }
    Some(acc)
}


} // verus!
