//! Byte-level text utilities shared by every puzzle: decimal formatting and
//! parsing, line and whitespace splitting, and the one bridge from ASCII
//! bytes back to `String`.
use vstd::prelude::*;

verus! {

/// Decimal digit bytes of `n`, most significant first.
pub open spec fn dec_digits(n: nat) -> Seq<u8>
    decreases n,
{
    if n < 10 {
        seq![(48 + n) as u8]
    } else {
        dec_digits(n / 10).push((48 + n % 10) as u8)
    }
}

/// Decimal digit bytes of a possibly negative integer, with a leading `-`.
pub open spec fn int_digits(i: int) -> Seq<u8> {
    if i < 0 {
        seq![45u8] + dec_digits((-i) as nat)
    } else {
        dec_digits(i as nat)
    }
}

/// The characters an ASCII byte sequence denotes.
pub open spec fn chars_of(s: Seq<u8>) -> Seq<char> {
    s.map_values(|b: u8| b as char)
}

/// The character sequence of the decimal rendering of `n`.
pub open spec fn dec_str(n: nat) -> Seq<char> {
    chars_of(dec_digits(n))
}

/// The character sequence of the decimal rendering of `i`.
pub open spec fn int_str(i: int) -> Seq<char> {
    chars_of(int_digits(i))
}

pub proof fn lemma_dec_digits_ascii(n: nat)
    ensures
        forall|i: int| 0 <= i < dec_digits(n).len() ==> 48 <= #[trigger] dec_digits(n)[i] <= 57,
    decreases n,
{
    if n >= 10 {
        lemma_dec_digits_ascii(n / 10);
        assert(dec_digits(n) == dec_digits(n / 10).push((48 + n % 10) as u8));
        assert(forall|i: int|
            0 <= i < dec_digits(n / 10).len() ==> dec_digits(n)[i] == #[trigger] dec_digits(
                n / 10,
            )[i]);
        assert(dec_digits(n)[dec_digits(n).len() - 1] == (48 + n % 10) as u8);
    }
}

/// Relies on `String::from_utf8`: bytes below 128 are valid UTF-8 and decode
/// to exactly the characters with the same code points.
#[verifier::external_body]
pub fn string_from_ascii(v: Vec<u8>) -> (r: String)
    requires
        forall|i: int| 0 <= i < v@.len() ==> v@[i] < 128,
    ensures
        r@ == chars_of(v@),
{
    match String::from_utf8(v) {
        Ok(s) => s,
        Err(_) => String::new(),
    }
}

/// Digit bytes of `n` in decimal.
pub fn u128_digits(n: u128) -> (r: Vec<u8>)
    ensures
        r@ == dec_digits(n as nat),
{
    let mut digits: Vec<u8> = Vec::new();
    let mut m: u128 = n;
    loop
        invariant_except_break
            m > 0 ==> dec_digits(n as nat) == dec_digits(m as nat) + digits@,
            m == 0 ==> n == 0 && digits@.len() == 0,
        ensures
            digits@ == dec_digits(n as nat),
        decreases m,
    {
        let d: u8 = (m % 10) as u8 + 48;
        let ghost pre = digits@;
        digits.insert(0, d);
        proof {
            assert(digits@ =~= seq![d] + pre);
            if m >= 10 {
                assert(dec_digits(m as nat) == dec_digits((m as nat) / 10).push(
                    (48 + (m as nat) % 10) as u8,
                ));
                assert(dec_digits((m as nat) / 10) + (seq![d] + pre) =~= dec_digits(m as nat)
                    + pre);
            } else {
                assert(dec_digits(m as nat) =~= seq![d]);
                assert(dec_digits(n as nat) =~= digits@);
            }
        }
        m = m / 10;
        if m == 0 {
            break;
        }
    }
    digits
}

/// Renders `n` in decimal.
pub fn u128_string(n: u128) -> (r: String)
    ensures
        r@ == dec_str(n as nat),
{
    let digits = u128_digits(n);
    proof {
        lemma_dec_digits_ascii(n as nat);
    }
    string_from_ascii(digits)
}

/// Renders `i` in decimal, with a `-` sign when negative.
pub fn i128_string(i: i128) -> (r: String)
    ensures
        r@ == int_str(i as int),
{
    if i >= 0 {
        u128_string(i as u128)
    } else {
        let mag: u128 = if i == i128::MIN {
            170141183460469231731687303715884105728u128
        } else {
            (-i) as u128
        };
        let mut bytes: Vec<u8> = Vec::new();
        bytes.push(45);
        let mut digits = u128_digits(mag);
        bytes.append(&mut digits);
        proof {
            assert(bytes@ =~= seq![45u8] + dec_digits(mag as nat));
            lemma_dec_digits_ascii(mag as nat);
        }
        string_from_ascii(bytes)
    }
}

// ---------------------------------------------------------------------------
// Decimal parsing
// ---------------------------------------------------------------------------
pub open spec fn is_digit(b: u8) -> bool {
    48 <= b && b <= 57
}

pub open spec fn all_digits(s: Seq<u8>) -> bool {
    forall|i: int| 0 <= i < s.len() ==> is_digit(#[trigger] s[i])
}

/// The value of a string of decimal digit bytes.
pub open spec fn dec_val(s: Seq<u8>) -> int
    decreases s.len(),
{
    if s.len() == 0 {
        0
    } else {
        dec_val(s.drop_last()) * 10 + (s.last() - 48)
    }
}

pub proof fn lemma_dec_val_nonneg(s: Seq<u8>)
    requires
        all_digits(s),
    ensures
        dec_val(s) >= 0,
    decreases s.len(),
{
    if s.len() > 0 {
        assert(all_digits(s.drop_last()));
        lemma_dec_val_nonneg(s.drop_last());
    }
}

pub proof fn lemma_dec_val_step(s: Seq<u8>, i: int)
    requires
        0 <= i < s.len(),
    ensures
        dec_val(s.take(i + 1)) == dec_val(s.take(i)) * 10 + (s[i] - 48),
{
    assert(s.take(i + 1).drop_last() =~= s.take(i));
    assert(s.take(i + 1).last() == s[i]);
}

pub proof fn lemma_dec_val_prefix_le(s: Seq<u8>, i: int)
    requires
        all_digits(s),
        0 <= i <= s.len(),
    ensures
        dec_val(s.take(i)) <= dec_val(s),
    decreases s.len() - i,
{
    if i == s.len() {
        assert(s.take(i) =~= s);
    } else {
        lemma_dec_val_step(s, i);
        assert(all_digits(s.take(i)));
        lemma_dec_val_nonneg(s.take(i));
        lemma_dec_val_prefix_le(s, i + 1);
    }
}

/// Parses the digit run `s[from..]` as a decimal number of value at most
/// `max`; `None` when the run is empty, holds a non-digit, or exceeds `max`.
pub fn parse_dec(s: &[u8], from: usize, max: u128) -> (r: Option<u128>)
    requires
        from <= s@.len(),
    ensures
        match r {
            Some(v) => {
                &&& s@.skip(from as int).len() > 0
                &&& all_digits(s@.skip(from as int))
                &&& v as int == dec_val(s@.skip(from as int))
                &&& v <= max
            },
            None => !{
                &&& s@.skip(from as int).len() > 0
                &&& all_digits(s@.skip(from as int))
                &&& dec_val(s@.skip(from as int)) <= max as int
            },
        },
{
    let ghost sub = s@.skip(from as int);
    if from == s.len() {
        return None;
    }
    let mut i: usize = from;
    let mut acc: u128 = 0;
    while i < s.len()
        invariant
            from <= i <= s@.len(),
            sub == s@.skip(from as int),
            all_digits(sub.take(i - from)),
            acc as int == dec_val(sub.take(i - from)),
            acc <= max,
        decreases s@.len() - i,
    {
        let b = s[i];
        proof {
            assert(sub[i - from] == s@[i as int]);
        }
        if b < 48 || b > 57 {
            proof {
                assert(!is_digit(sub[i - from]));
            }
            return None;
        }
        let d: u128 = (b - 48) as u128;
        let over: bool = if max < d {
            true
        } else {
            acc > (max - d) / 10
        };
        proof {
            lemma_dec_val_step(sub, i - from);
            if over {
                assert(acc as int * 10 + d > max) by (nonlinear_arith)
                    requires
                        acc as int >= 0,
                        d >= 0,
                        (max < d) || (acc as int > (max as int - d) / 10),
                        max >= 0,
                ;
                if all_digits(sub) {
                    lemma_dec_val_prefix_le(sub, i - from + 1);
                }
            } else {
                assert(acc as int * 10 + d <= max) by (nonlinear_arith)
                    requires
                        0 <= acc as int <= (max as int - d) / 10,
                        0 <= d <= max,
                ;
            }
        }
        if over {
            return None;
        }
        acc = acc * 10 + d;
        i = i + 1;
        proof {
            assert(is_digit(sub[i - from - 1]));
            assert(all_digits(sub.take(i - from)));
        }
    }
    proof {
        assert(sub.take(i - from) =~= sub);
    }
    Some(acc)
}

/// The value of an optionally `-`-signed digit string, or `None` when it is
/// not one.
pub open spec fn int_val(s: Seq<u8>) -> Option<int> {
    if s.len() > 0 && s[0] == 45 {
        if s.len() > 1 && all_digits(s.skip(1)) {
            Some(-dec_val(s.skip(1)))
        } else {
            None
        }
    } else if s.len() > 0 && all_digits(s) {
        Some(dec_val(s))
    } else {
        None
    }
}

/// Parses an optionally signed decimal with magnitude at most `mag`.
pub fn parse_int(s: &[u8], mag: u128) -> (r: Option<i128>)
    requires
        mag <= i128::MAX as u128,
    ensures
        match r {
            Some(v) => {
                &&& int_val(s@) is Some
                &&& v as int == int_val(s@)->0
                &&& -(mag as int) <= v as int <= mag as int
            },
            None => !{
                &&& int_val(s@) is Some
                &&& -(mag as int) <= int_val(s@)->0 <= mag as int
            },
        },
{
    if s.len() > 0 && s[0] == 45 {
        proof {
            if all_digits(s@.skip(1)) {
                lemma_dec_val_nonneg(s@.skip(1));
            }
        }
        match parse_dec(s, 1, mag) {
            Some(v) => Some(-(v as i128)),
            None => None,
        }
    } else {
        proof {
            if s@.len() > 0 && all_digits(s@) {
                lemma_dec_val_nonneg(s@);
            }
        }
        match parse_dec(s, 0, mag) {
            Some(v) => {
                proof {
                    assert(s@.skip(0) =~= s@);
                }
                Some(v as i128)
            },
            None => {
                proof {
                    assert(s@.skip(0) =~= s@);
                }
                None
            },
        }
    }
}

// ---------------------------------------------------------------------------
// Splitting into lines and whitespace-separated tokens
// ---------------------------------------------------------------------------
/// Index of the first newline at or after `from`, or the length.
pub open spec fn find_nl(s: Seq<u8>, from: int) -> int
    decreases s.len() - from,
{
    if from >= s.len() {
        s.len() as int
    } else if s[from] == 10 {
        from
    } else {
        find_nl(s, from + 1)
    }
}

pub proof fn lemma_find_nl(s: Seq<u8>, from: int)
    requires
        0 <= from <= s.len(),
    ensures
        from <= find_nl(s, from) <= s.len(),
        find_nl(s, from) < s.len() ==> s[find_nl(s, from)] == 10,
        forall|j: int| from <= j < find_nl(s, from) ==> s[j] != 10,
    decreases s.len() - from,
{
    if from < s.len() && s[from] != 10 {
        lemma_find_nl(s, from + 1);
    }
}

/// A line with a trailing carriage return removed.
pub open spec fn strip_cr(l: Seq<u8>) -> Seq<u8> {
    if l.len() > 0 && l.last() == 13 {
        l.drop_last()
    } else {
        l
    }
}

/// The lines of `s[from..]`, split at newlines, carriage returns stripped,
/// with no final empty line for a trailing newline.
pub open spec fn lines_from(s: Seq<u8>, from: int) -> Seq<Seq<u8>>
    decreases s.len() - from,
    when 0 <= from
    via lines_from_dec
{
    if from >= s.len() {
        Seq::empty()
    } else {
        let e = find_nl(s, from);
        if e >= s.len() {
            seq![strip_cr(s.subrange(from, s.len() as int))]
        } else {
            seq![strip_cr(s.subrange(from, e))] + lines_from(s, e + 1)
        }
    }
}

#[via_fn]
proof fn lines_from_dec(s: Seq<u8>, from: int) {
    if 0 <= from <= s.len() {
        lemma_find_nl(s, from);
    }
}

/// The lines of the whole of `s`.
pub open spec fn lines_of(s: Seq<u8>) -> Seq<Seq<u8>> {
    lines_from(s, 0)
}

/// Splits `s` into its lines.
pub fn split_lines(s: &[u8]) -> (r: Vec<Vec<u8>>)
    ensures
        r.deep_view() == lines_of(s@),
{
    let mut r: Vec<Vec<u8>> = Vec::new();
    let mut pos: usize = 0;
    while pos < s.len()
        invariant
            pos <= s@.len(),
            r.deep_view() + lines_from(s@, pos as int) == lines_of(s@),
        decreases s@.len() - pos,
    {
        let mut j: usize = pos;
        while j < s.len() && s[j] != 10
            invariant
                pos <= j <= s@.len(),
                find_nl(s@, pos as int) == find_nl(s@, j as int),
            decreases s@.len() - j,
        {
            j = j + 1;
        }
        proof {
            assert(find_nl(s@, j as int) == j);
        }
        let mut line = sub_vec(s, pos, j);
        if line.len() > 0 && line[line.len() - 1] == 13 {
            let _ = line.pop();
        }
        proof {
            assert(line@ == strip_cr(s@.subrange(pos as int, j as int)));
        }
        let ghost pre = r.deep_view();
        let ghost prevv = r@;
        r.push(line);
        proof {
            assert(r.deep_view() =~~= pre.push(line@)) by {
                assert(r@ == prevv.push(line));
            }
            if j < s.len() {
                assert(lines_from(s@, pos as int) == seq![line@] + lines_from(s@, j + 1));
                assert(pre.push(line@) + lines_from(s@, j + 1) =~= pre + lines_from(
                    s@,
                    pos as int,
                ));
            } else {
                assert(lines_from(s@, pos as int) =~= seq![line@]);
                assert(pre.push(line@) + lines_from(s@, s@.len() as int) =~= pre + lines_from(
                    s@,
                    pos as int,
                ));
            }
        }
        if j < s.len() {
            pos = j + 1;
        } else {
            pos = s.len();
        }
    }
    proof {
        assert(r.deep_view() + lines_from(s@, pos as int) =~= r.deep_view());
    }
    r
}

/// The summed lengths of a sequence of byte strings.
pub open spec fn sum_lens(ls: Seq<Seq<u8>>) -> int
    decreases ls.len(),
{
    if ls.len() == 0 {
        0
    } else {
        ls.first().len() + sum_lens(ls.drop_first())
    }
}

/// The lines of a text together hold no more bytes than the text.
pub proof fn lemma_lines_sum(s: Seq<u8>, from: int)
    requires
        0 <= from <= s.len(),
    ensures
        sum_lens(lines_from(s, from)) <= s.len() - from,
    decreases s.len() - from,
{
    if from < s.len() {
        lemma_find_nl(s, from);
        let e = find_nl(s, from);
        if e >= s.len() {
            let line = strip_cr(s.subrange(from, s.len() as int));
            assert(lines_from(s, from) == seq![line]);
            assert(seq![line].drop_first() =~= Seq::<Seq<u8>>::empty());
            assert(sum_lens(Seq::<Seq<u8>>::empty()) == 0);
            assert(seq![line].first() == line);
            assert(sum_lens(seq![line]) == line.len() + sum_lens(seq![line].drop_first()));
        } else {
            let line = strip_cr(s.subrange(from, e));
            lemma_lines_sum(s, e + 1);
            assert(lines_from(s, from) == seq![line] + lines_from(s, e + 1));
            assert((seq![line] + lines_from(s, e + 1)).drop_first() =~= lines_from(s, e + 1));
            assert((seq![line] + lines_from(s, e + 1)).first() == line);
        }
    }
}

/// A text has no more lines than bytes.
pub proof fn lemma_lines_count(s: Seq<u8>, from: int)
    requires
        0 <= from <= s.len(),
    ensures
        lines_from(s, from).len() <= s.len() - from,
    decreases s.len() - from,
{
    if from < s.len() {
        lemma_find_nl(s, from);
        let e = find_nl(s, from);
        if e < s.len() {
            lemma_lines_count(s, e + 1);
        }
    }
}

/// Whitespace for token splitting: tab, newline, carriage return, space.
pub open spec fn is_ws(b: u8) -> bool {
    b == 9 || b == 10 || b == 13 || b == 32
}

/// Index of the first non-whitespace byte at or after `from`, or the length.
pub open spec fn find_non_ws(s: Seq<u8>, from: int) -> int
    decreases s.len() - from,
{
    if from >= s.len() {
        s.len() as int
    } else if !is_ws(s[from]) {
        from
    } else {
        find_non_ws(s, from + 1)
    }
}

/// Index of the first whitespace byte at or after `from`, or the length.
pub open spec fn find_ws(s: Seq<u8>, from: int) -> int
    decreases s.len() - from,
{
    if from >= s.len() {
        s.len() as int
    } else if is_ws(s[from]) {
        from
    } else {
        find_ws(s, from + 1)
    }
}

pub proof fn lemma_find_ws(s: Seq<u8>, from: int)
    requires
        0 <= from <= s.len(),
    ensures
        from <= find_non_ws(s, from) <= s.len(),
        from <= find_ws(s, from) <= s.len(),
        find_non_ws(s, from) < s.len() ==> !is_ws(s[find_non_ws(s, from)]),
        find_ws(s, from) < s.len() ==> is_ws(s[find_ws(s, from)]),
    decreases s.len() - from,
{
    if from < s.len() {
        lemma_find_ws(s, from + 1);
    }
}

/// The whitespace-separated tokens of `s[from..]`.
pub open spec fn tokens_from(s: Seq<u8>, from: int) -> Seq<Seq<u8>>
    decreases s.len() - from,
    when 0 <= from
    via tokens_from_dec
{
    let t0 = find_non_ws(s, from);
    if t0 >= s.len() {
        Seq::empty()
    } else {
        let e = find_ws(s, t0);
        seq![s.subrange(t0, e)] + tokens_from(s, e)
    }
}

#[via_fn]
proof fn tokens_from_dec(s: Seq<u8>, from: int) {
    if 0 <= from <= s.len() {
        lemma_find_ws(s, from);
        let t0 = find_non_ws(s, from);
        if t0 < s.len() {
            lemma_find_ws(s, t0);
            assert(find_ws(s, t0) == find_ws(s, t0 + 1));
        }
    }
}

/// The whitespace-separated tokens of the whole of `s`.
pub open spec fn tokens_of(s: Seq<u8>) -> Seq<Seq<u8>> {
    tokens_from(s, 0)
}

/// Splits `s` into whitespace-separated tokens.
pub fn split_ws(s: &[u8]) -> (r: Vec<Vec<u8>>)
    ensures
        r.deep_view() == tokens_of(s@),
{
    let mut r: Vec<Vec<u8>> = Vec::new();
    let mut pos: usize = 0;
    loop
        invariant
            pos <= s@.len(),
            r.deep_view() + tokens_from(s@, pos as int) == tokens_of(s@),
        ensures
            r.deep_view() == tokens_of(s@),
        decreases s@.len() - pos,
    {
        let mut t: usize = pos;
        while t < s.len() && (s[t] == 9 || s[t] == 10 || s[t] == 13 || s[t] == 32)
            invariant
                pos <= t <= s@.len(),
                find_non_ws(s@, pos as int) == find_non_ws(s@, t as int),
            decreases s@.len() - t,
        {
            t = t + 1;
        }
        proof {
            assert(find_non_ws(s@, t as int) == t);
        }
        if t == s.len() {
            proof {
                assert(tokens_from(s@, pos as int) =~= Seq::<Seq<u8>>::empty());
                assert(r.deep_view() + Seq::<Seq<u8>>::empty() =~= r.deep_view());
            }
            break;
        }
        let mut e: usize = t;
        while e < s.len() && !(s[e] == 9 || s[e] == 10 || s[e] == 13 || s[e] == 32)
            invariant
                t <= e <= s@.len(),
                find_ws(s@, t as int) == find_ws(s@, e as int),
            decreases s@.len() - e,
        {
            e = e + 1;
        }
        proof {
            assert(find_ws(s@, e as int) == e);
        }
        let tok = sub_vec(s, t, e);
        let ghost pre = r.deep_view();
        let ghost prevv = r@;
        r.push(tok);
        proof {
            assert(r.deep_view() =~~= pre.push(tok@)) by {
                assert(r@ == prevv.push(tok));
            }
            assert(tokens_from(s@, pos as int) == seq![tok@] + tokens_from(s@, e as int));
            assert(pre.push(tok@) + tokens_from(s@, e as int) =~= pre + tokens_from(
                s@,
                pos as int,
            ));
        }
        pos = e;
    }
    r
}

/// Index of the first occurrence of `b` at or after `from`, or the length.
pub open spec fn find_byte(s: Seq<u8>, b: u8, from: int) -> int
    decreases s.len() - from,
{
    if from >= s.len() {
        s.len() as int
    } else if s[from] == b {
        from
    } else {
        find_byte(s, b, from + 1)
    }
}

pub proof fn lemma_find_byte(s: Seq<u8>, b: u8, from: int)
    requires
        0 <= from <= s.len(),
    ensures
        from <= find_byte(s, b, from) <= s.len(),
        find_byte(s, b, from) < s.len() ==> s[find_byte(s, b, from)] == b,
        forall|j: int| from <= j < find_byte(s, b, from) ==> s[j] != b,
    decreases s.len() - from,
{
    if from < s.len() && s[from] != b {
        lemma_find_byte(s, b, from + 1);
    }
}

/// Scans for the first occurrence of `b` at or after `from`.
pub fn scan_byte(s: &[u8], b: u8, from: usize) -> (r: usize)
    requires
        from <= s@.len(),
    ensures
        r as int == find_byte(s@, b, from as int),
{
    let mut j: usize = from;
    while j < s.len() && s[j] != b
        invariant
            from <= j <= s@.len(),
            find_byte(s@, b, from as int) == find_byte(s@, b, j as int),
        decreases s@.len() - j,
    {
        j = j + 1;
    }
    proof {
        assert(find_byte(s@, b, j as int) == j);
    }
    j
}

/// Copies `s[i..j]` into a fresh vector.
pub fn sub_vec(s: &[u8], i: usize, j: usize) -> (r: Vec<u8>)
    requires
        i <= j <= s@.len(),
    ensures
        r@ == s@.subrange(i as int, j as int),
{
    let mut r: Vec<u8> = Vec::new();
    let mut k: usize = i;
    while k < j
        invariant
            i <= k <= j <= s@.len(),
            r@ == s@.subrange(i as int, k as int),
        decreases j - k,
    {
        r.push(s[k]);
        proof {
            assert(s@.subrange(i as int, k as int).push(s@[k as int]) =~= s@.subrange(
                i as int,
                k + 1,
            ));
        }
        k = k + 1;
    }
    r
}

/// Whether two byte slices hold the same bytes.
pub fn bytes_eq(a: &[u8], b: &[u8]) -> (r: bool)
    ensures
        r == (a@ == b@),
{
    if a.len() != b.len() {
        return false;
    }
    let mut k: usize = 0;
    while k < a.len()
        invariant
            k <= a@.len(),
            a@.len() == b@.len(),
            forall|j: int| 0 <= j < k ==> a@[j] == b@[j],
        decreases a@.len() - k,
    {
        if a[k] != b[k] {
            return false;
        }
        k = k + 1;
    }
    proof {
        assert(a@ =~= b@);
    }
    true
}

} // verus!
