//! Grammar primitives for the wire and snapshot format.
//!
//! Every message body and snapshot blob in this crate is a JSON text in a
//! canonical form: objects with a fixed key order, no extra whitespace,
//! strings escaping only `"` and `\`, and numbers in canonical decimal.
//! The spec functions here define both the encoding (`json_string`,
//! `dec_nat`, ...) and the decoding (`sp_lit`, `sp_string`, ...) of that
//! form; the exec functions implement them and are proved to match.

use vstd::prelude::*;
use vstd::string::StrSliceExecFns;
use vstd::string::StringExecFns;

verus! {

// ---------------------------------------------------------------------------
// Characters and digits
// ---------------------------------------------------------------------------

pub open spec fn is_digit(c: char) -> bool {
    c == '0' || c == '1' || c == '2' || c == '3' || c == '4' || c == '5' || c == '6' || c == '7'
        || c == '8' || c == '9'
}

pub open spec fn digit_val(c: char) -> nat {
    if c == '0' {
        0
    } else if c == '1' {
        1
    } else if c == '2' {
        2
    } else if c == '3' {
        3
    } else if c == '4' {
        4
    } else if c == '5' {
        5
    } else if c == '6' {
        6
    } else if c == '7' {
        7
    } else if c == '8' {
        8
    } else {
        9
    }
}

pub open spec fn digit_char(n: nat) -> char {
    if n == 0 {
        '0'
    } else if n == 1 {
        '1'
    } else if n == 2 {
        '2'
    } else if n == 3 {
        '3'
    } else if n == 4 {
        '4'
    } else if n == 5 {
        '5'
    } else if n == 6 {
        '6'
    } else if n == 7 {
        '7'
    } else if n == 8 {
        '8'
    } else {
        '9'
    }
}

pub proof fn lemma_digit_char_val(n: nat)
    requires
        n < 10,
    ensures
        is_digit(digit_char(n)),
        digit_val(digit_char(n)) == n,
        digit_char(n) != '-',
{
}

// ---------------------------------------------------------------------------
// Canonical decimal encoding
// ---------------------------------------------------------------------------

pub open spec fn dec_nat(n: nat) -> Seq<char>
    decreases n,
{
    if n < 10 {
        seq![digit_char(n)]
    } else {
        dec_nat(n / 10).push(digit_char(n % 10))
    }
}

pub open spec fn dec_i64(v: int) -> Seq<char> {
    if v >= 0 {
        dec_nat(v as nat)
    } else {
        seq!['-'] + dec_nat((-v) as nat)
    }
}

// ---------------------------------------------------------------------------
// Canonical string encoding
// ---------------------------------------------------------------------------

pub open spec fn esc_char(c: char) -> Seq<char> {
    if c == '"' || c == '\\' {
        seq!['\\', c]
    } else {
        seq![c]
    }
}

pub open spec fn escape(s: Seq<char>) -> Seq<char>
    decreases s.len(),
{
    if s.len() == 0 {
        Seq::empty()
    } else {
        esc_char(s[0]) + escape(s.drop_first())
    }
}

pub open spec fn json_string(s: Seq<char>) -> Seq<char> {
    seq!['"'] + escape(s) + seq!['"']
}

pub open spec fn bool_json(b: bool) -> Seq<char> {
    if b {
        "true"@
    } else {
        "false"@
    }
}

/// Escaping distributes over extending the input by one character.
pub proof fn lemma_escape_push(s: Seq<char>, c: char)
    ensures
        escape(s.push(c)) == escape(s) + esc_char(c),
    decreases s.len(),
{
    if s.len() == 0 {
        assert(s.push(c)[0] == c);
        assert(s.push(c).drop_first() =~= s);
        assert(escape(s) =~= Seq::<char>::empty());
        assert(escape(s.push(c)) =~= escape(s) + esc_char(c));
    } else {
        assert(s.push(c)[0] == s[0]);
        assert(s.push(c).drop_first() =~= s.drop_first().push(c));
        lemma_escape_push(s.drop_first(), c);
        assert(escape(s.push(c)) == esc_char(s[0]) + escape(s.drop_first().push(c)));
        assert(escape(s.push(c)) =~= escape(s) + esc_char(c));
    }
}

// ---------------------------------------------------------------------------
// Spec-level parsers
// ---------------------------------------------------------------------------

/// Match the literal `lit` at position `i`; return the position after it.
pub open spec fn sp_lit(s: Seq<char>, i: int, lit: Seq<char>) -> Option<int> {
    if 0 <= i && i + lit.len() <= s.len() && s.subrange(i, i + lit.len() as int) == lit {
        Some(i + lit.len() as int)
    } else {
        None
    }
}

/// Scan a string body (after the opening quote) up to the closing quote.
pub open spec fn sp_str_body(s: Seq<char>, i: int) -> Option<(Seq<char>, int)>
    decreases s.len() - i,
{
    if i < 0 || i >= s.len() {
        None
    } else if s[i] == '"' {
        Some((Seq::empty(), i + 1))
    } else if s[i] == '\\' {
        if i + 1 < s.len() && (s[i + 1] == '"' || s[i + 1] == '\\') {
            match sp_str_body(s, i + 2) {
                Some(r) => Some((seq![s[i + 1]] + r.0, r.1)),
                None => None,
            }
        } else {
            None
        }
    } else {
        match sp_str_body(s, i + 1) {
            Some(r) => Some((seq![s[i]] + r.0, r.1)),
            None => None,
        }
    }
}

pub open spec fn sp_string(s: Seq<char>, i: int) -> Option<(Seq<char>, int)> {
    if 0 <= i && i < s.len() && s[i] == '"' {
        sp_str_body(s, i + 1)
    } else {
        None
    }
}

/// Consume digits, folding them onto `acc`.
pub open spec fn sp_digits(s: Seq<char>, i: int, acc: nat) -> (nat, int)
    decreases s.len() - i,
{
    if 0 <= i && i < s.len() && is_digit(s[i]) {
        sp_digits(s, i + 1, acc * 10 + digit_val(s[i]))
    } else {
        (acc, i)
    }
}

pub open spec fn sp_number(s: Seq<char>, i: int) -> Option<(nat, int)> {
    if 0 <= i && i < s.len() && is_digit(s[i]) {
        Some(sp_digits(s, i, 0))
    } else {
        None
    }
}

/// A number bounded by `max`; larger values make the parse fail.
pub open spec fn sp_number_max(s: Seq<char>, i: int, max: nat) -> Option<(nat, int)> {
    match sp_number(s, i) {
        Some(r) => if r.0 <= max {
            Some(r)
        } else {
            None
        },
        None => None,
    }
}

pub open spec fn sp_i64(s: Seq<char>, i: int) -> Option<(int, int)> {
    if 0 <= i && i < s.len() && s[i] == '-' {
        match sp_number(s, i + 1) {
            Some(r) => if r.0 <= 0x8000_0000_0000_0000 && r.1 > i + 1 {
                Some((-(r.0 as int), r.1))
            } else {
                None
            },
            None => None,
        }
    } else {
        match sp_number(s, i) {
            Some(r) => if r.0 <= 0x7fff_ffff_ffff_ffff {
                Some((r.0 as int, r.1))
            } else {
                None
            },
            None => None,
        }
    }
}

pub open spec fn sp_bool(s: Seq<char>, i: int) -> Option<(bool, int)> {
    match sp_lit(s, i, "true"@) {
        Some(j) => Some((true, j)),
        None => match sp_lit(s, i, "false"@) {
            Some(j) => Some((false, j)),
            None => None,
        },
    }
}

// ---------------------------------------------------------------------------
// Lemmas: parsing an encoding at its position succeeds
// ---------------------------------------------------------------------------

/// A subrange of `s` that is known to equal `whole` contains each part of
/// `whole` at the corresponding offset.
pub proof fn lemma_subrange_part(s: Seq<char>, i: int, whole: Seq<char>, off: int, part: Seq<char>)
    requires
        0 <= i,
        i + whole.len() <= s.len(),
        s.subrange(i, i + whole.len() as int) == whole,
        0 <= off,
        off + part.len() <= whole.len(),
        whole.subrange(off, off + part.len() as int) == part,
    ensures
        s.subrange(i + off, i + off + part.len() as int) == part,
{
    assert forall|k: int| 0 <= k < part.len() implies s[i + off + k] == part[k] by {
        assert(s.subrange(i, i + whole.len() as int)[off + k] == whole[off + k]);
        assert(whole.subrange(off, off + part.len() as int)[k] == part[k]);
    }
    assert(s.subrange(i + off, i + off + part.len() as int) =~= part);
}

pub proof fn lemma_sp_lit_pos(s: Seq<char>, i: int, lit: Seq<char>)
    requires
        0 <= i,
        i + lit.len() <= s.len(),
        s.subrange(i, i + lit.len() as int) == lit,
    ensures
        sp_lit(s, i, lit) == Some(i + lit.len() as int),
{
}

pub proof fn lemma_sp_str_body_at(s: Seq<char>, i: int, t: Seq<char>)
    requires
        0 <= i,
        i + escape(t).len() + 1 <= s.len(),
        s.subrange(i, i + escape(t).len() as int) == escape(t),
        s[i + escape(t).len()] == '"',
    ensures
        sp_str_body(s, i) == Some((t, i + escape(t).len() + 1)),
    decreases t.len(),
{
    if t.len() == 0 {
        assert(escape(t).len() == 0);
        assert(s[i] == '"');
    } else {
        let c = t[0];
        let rest = t.drop_first();
        assert(escape(t) == esc_char(c) + escape(rest));
        let el = escape(t).len() as int;
        assert forall|k: int| 0 <= k < el implies s[i + k] == escape(t)[k] by {
            assert(s.subrange(i, i + el)[k] == escape(t)[k]);
        }
        if c == '"' || c == '\\' {
            assert(escape(t)[0] == '\\');
            assert(escape(t)[1] == c);
            assert(s[i] == '\\');
            assert(s[i + 1] == c);
            assert(s.subrange(i + 2, i + 2 + escape(rest).len() as int) =~= escape(rest)) by {
                assert forall|k: int| 0 <= k < escape(rest).len() implies s[i + 2 + k] == escape(
                    rest,
                )[k] by {
                    assert(escape(t)[2 + k] == escape(rest)[k]);
                }
            }
            lemma_sp_str_body_at(s, i + 2, rest);
            assert(seq![c] + rest =~= t);
        } else {
            assert(escape(t)[0] == c);
            assert(s[i] == c);
            assert(s.subrange(i + 1, i + 1 + escape(rest).len() as int) =~= escape(rest)) by {
                assert forall|k: int| 0 <= k < escape(rest).len() implies s[i + 1 + k] == escape(
                    rest,
                )[k] by {
                    assert(escape(t)[1 + k] == escape(rest)[k]);
                }
            }
            lemma_sp_str_body_at(s, i + 1, rest);
            assert(seq![c] + rest =~= t);
        }
    }
}

pub proof fn lemma_sp_string_at(s: Seq<char>, i: int, t: Seq<char>)
    requires
        0 <= i,
        i + json_string(t).len() <= s.len(),
        s.subrange(i, i + json_string(t).len() as int) == json_string(t),
    ensures
        sp_string(s, i) == Some((t, i + json_string(t).len())),
{
    let jl = json_string(t).len() as int;
    assert forall|k: int| 0 <= k < jl implies s[i + k] == json_string(t)[k] by {
        assert(s.subrange(i, i + jl)[k] == json_string(t)[k]);
    }
    assert(json_string(t)[0] == '"');
    assert(s[i] == '"');
    assert(json_string(t)[jl - 1] == '"');
    assert(s[i + 1 + escape(t).len()] == '"');
    assert(s.subrange(i + 1, i + 1 + escape(t).len() as int) =~= escape(t)) by {
        assert forall|k: int| 0 <= k < escape(t).len() implies s[i + 1 + k] == escape(t)[k] by {
            assert(json_string(t)[1 + k] == escape(t)[k]);
        }
    }
    lemma_sp_str_body_at(s, i + 1, t);
}

// ---------------------------------------------------------------------------
// Lemmas: decimal numbers
// ---------------------------------------------------------------------------

pub open spec fn pow10(n: nat) -> nat
    decreases n,
{
    if n == 0 {
        1
    } else {
        10 * pow10((n - 1) as nat)
    }
}

pub open spec fn all_digits(d: Seq<char>) -> bool {
    forall|k: int| 0 <= k < d.len() ==> is_digit(d[k])
}

pub open spec fn digits_val(d: Seq<char>) -> nat
    decreases d.len(),
{
    if d.len() == 0 {
        0
    } else {
        digits_val(d.drop_last()) * 10 + digit_val(d.last())
    }
}

/// Front decomposition of `digits_val`.
pub proof fn lemma_digits_val_front(d: Seq<char>)
    requires
        d.len() > 0,
    ensures
        digits_val(d) == digit_val(d[0]) * pow10((d.len() - 1) as nat) + digits_val(d.drop_first()),
    decreases d.len(),
{
    if d.len() == 1 {
        assert(d.drop_last() =~= Seq::<char>::empty());
        assert(d.drop_first() =~= Seq::<char>::empty());
        assert(digits_val(Seq::<char>::empty()) == 0);
        assert(d.last() == d[0]);
        assert(pow10(0) == 1);
        assert(digits_val(d) == digit_val(d[0]) * 1 + 0);
    } else {
        let dl = d.drop_last();
        lemma_digits_val_front(dl);
        let a = digit_val(d[0]);
        assert(dl[0] == d[0]);
        assert(d.drop_first().drop_last() =~= dl.drop_first());
        assert(d.drop_first().last() == d.last());
        let m = (dl.len() - 1) as nat;
        assert(digits_val(dl) == a * pow10(m) + digits_val(dl.drop_first()));
        assert(digits_val(d) == digits_val(dl) * 10 + digit_val(d.last()));
        assert((a * pow10(m) + digits_val(dl.drop_first())) * 10 == a * pow10(m) * 10 + digits_val(
            dl.drop_first(),
        ) * 10) by (nonlinear_arith);
        assert(a * pow10(m) * 10 == a * (pow10(m) * 10)) by (nonlinear_arith);
        assert(pow10((m + 1) as nat) == 10 * pow10(m));
        assert(m + 1 == d.len() - 1);
        assert(digits_val(d.drop_first()) == digits_val(dl.drop_first()) * 10 + digit_val(
            d.last(),
        ));
        assert(digits_val(d) == a * pow10((d.len() - 1) as nat) + digits_val(d.drop_first()));
    }
}

/// Consuming a known digit block folds its value onto the accumulator.
pub proof fn lemma_sp_digits_at(s: Seq<char>, i: int, d: Seq<char>, acc: nat)
    requires
        0 <= i,
        i + d.len() <= s.len(),
        s.subrange(i, i + d.len() as int) == d,
        all_digits(d),
        i + d.len() == s.len() || !is_digit(s[i + d.len()]),
    ensures
        sp_digits(s, i, acc) == (acc * pow10(d.len()) + digits_val(d), i + d.len() as int),
    decreases d.len(),
{
    if d.len() == 0 {
        assert(acc * 1 == acc) by (nonlinear_arith);
    } else {
        assert(s.subrange(i, i + d.len() as int)[0] == d[0]);
        assert(s[i] == d[0]);
        assert(is_digit(s[i]));
        let rest = d.drop_first();
        assert(s.subrange(i + 1, i + 1 + rest.len() as int) =~= rest) by {
            assert forall|k: int| 0 <= k < rest.len() implies s[i + 1 + k] == rest[k] by {
                assert(s.subrange(i, i + d.len() as int)[1 + k] == d[1 + k]);
            }
        }
        let acc2 = acc * 10 + digit_val(d[0]);
        lemma_sp_digits_at(s, i + 1, rest, acc2);
        lemma_digits_val_front(d);
        let m = rest.len() as nat;
        assert((acc * 10 + digit_val(d[0])) * pow10(m) == acc * 10 * pow10(m) + digit_val(d[0])
            * pow10(m)) by (nonlinear_arith);
        assert(acc * 10 * pow10(m) == acc * (10 * pow10(m))) by (nonlinear_arith);
        assert(10 * pow10(m) == pow10(d.len() as nat));
    }
}

/// `sp_digits` never decreases the accumulator.
pub proof fn lemma_sp_digits_ge(s: Seq<char>, i: int, acc: nat)
    ensures
        sp_digits(s, i, acc).0 >= acc,
    decreases s.len() - i,
{
    if 0 <= i && i < s.len() && is_digit(s[i]) {
        lemma_sp_digits_ge(s, i + 1, acc * 10 + digit_val(s[i]));
        assert(acc * 10 >= acc) by (nonlinear_arith);
    }
}

/// `dec_nat` produces digits that evaluate back to the number.
pub proof fn lemma_dec_nat(n: nat)
    ensures
        dec_nat(n).len() >= 1,
        all_digits(dec_nat(n)),
        digits_val(dec_nat(n)) == n,
        is_digit(dec_nat(n)[0]),
        dec_nat(n)[0] != '-',
    decreases n,
{
    if n < 10 {
        lemma_digit_char_val(n);
        let d = dec_nat(n);
        assert(d.drop_last() =~= Seq::<char>::empty());
        assert(digits_val(Seq::<char>::empty()) == 0);
        assert(d.last() == digit_char(n));
        assert(digits_val(d) == 0 * 10 + n);
    } else {
        lemma_dec_nat(n / 10);
        lemma_digit_char_val(n % 10);
        let d = dec_nat(n);
        let prev = dec_nat(n / 10);
        assert(d == prev.push(digit_char(n % 10)));
        assert(d.drop_last() =~= prev);
        assert(d.last() == digit_char(n % 10));
        assert(digits_val(d) == (n / 10) * 10 + n % 10);
        assert(n == (n / 10) * 10 + n % 10) by (nonlinear_arith);
        assert forall|k: int| 0 <= k < d.len() implies is_digit(d[k]) by {
            if k < prev.len() {
                assert(d[k] == prev[k]);
            }
        }
        assert(d[0] == prev[0]);
    }
}

/// Parsing a canonical decimal block at its position yields the number.
pub proof fn lemma_sp_number_at(s: Seq<char>, i: int, n: nat)
    requires
        0 <= i,
        i + dec_nat(n).len() <= s.len(),
        s.subrange(i, i + dec_nat(n).len() as int) == dec_nat(n),
        i + dec_nat(n).len() == s.len() || !is_digit(s[i + dec_nat(n).len()]),
    ensures
        sp_number(s, i) == Some((n, i + dec_nat(n).len() as int)),
{
    lemma_dec_nat(n);
    assert(s.subrange(i, i + dec_nat(n).len() as int)[0] == dec_nat(n)[0]);
    assert(is_digit(s[i]));
    lemma_sp_digits_at(s, i, dec_nat(n), 0);
}

/// Parsing a canonical signed decimal block at its position.
pub proof fn lemma_sp_i64_at(s: Seq<char>, i: int, v: int)
    requires
        0 <= i,
        -0x8000_0000_0000_0000 <= v <= 0x7fff_ffff_ffff_ffff,
        i + dec_i64(v).len() <= s.len(),
        s.subrange(i, i + dec_i64(v).len() as int) == dec_i64(v),
        i + dec_i64(v).len() == s.len() || !is_digit(s[i + dec_i64(v).len()]),
    ensures
        sp_i64(s, i) == Some((v, i + dec_i64(v).len() as int)),
{
    if v >= 0 {
        lemma_sp_number_at(s, i, v as nat);
        lemma_dec_nat(v as nat);
        assert(s.subrange(i, i + dec_i64(v).len() as int)[0] == dec_i64(v)[0]);
        assert(s[i] != '-');
    } else {
        let mag = (-v) as nat;
        let d = dec_nat(mag);
        assert(dec_i64(v) == seq!['-'] + d);
        assert forall|k: int| 0 <= k < dec_i64(v).len() implies s[i + k] == dec_i64(v)[k] by {
            assert(s.subrange(i, i + dec_i64(v).len() as int)[k] == dec_i64(v)[k]);
        }
        assert(dec_i64(v)[0] == '-');
        assert(s[i + 0] == dec_i64(v)[0]);
        assert(s[i] == '-');
        assert(s.subrange(i + 1, i + 1 + d.len() as int) =~= d) by {
            assert forall|k: int| 0 <= k < d.len() implies s[i + 1 + k] == d[k] by {
                assert(dec_i64(v)[1 + k] == d[k]);
            }
        }
        lemma_sp_number_at(s, i + 1, mag);
        lemma_dec_nat(mag);
    }
}

/// Parsing a boolean literal at its position.
pub proof fn lemma_sp_bool_at(s: Seq<char>, i: int, b: bool)
    requires
        0 <= i,
        i + bool_json(b).len() <= s.len(),
        s.subrange(i, i + bool_json(b).len() as int) == bool_json(b),
    ensures
        sp_bool(s, i) == Some((b, i + bool_json(b).len())),
{
    reveal_strlit("true");
    reveal_strlit("false");
    if b {
        lemma_sp_lit_pos(s, i, "true"@);
    } else {
        lemma_sp_lit_pos(s, i, "false"@);
        assert(s.subrange(i, i + 5)[0] == 'f');
        if sp_lit(s, i, "true"@) is Some {
            assert(s.subrange(i, i + 4)[0] == 't');
            assert(false);
        }
    }
}

/// A literal cannot match where the text differs at some position.
pub proof fn lemma_sp_lit_mismatch(s: Seq<char>, i: int, lit: Seq<char>, k: int)
    requires
        0 <= k < lit.len(),
        0 <= i,
        i + k < s.len(),
        s[i + k] != lit[k],
    ensures
        sp_lit(s, i, lit) is None,
{
    if sp_lit(s, i, lit) is Some {
        assert(s.subrange(i, i + lit.len() as int)[k] == lit[k]);
        assert(false);
    }
}

// ---------------------------------------------------------------------------
// Exec parsers
// ---------------------------------------------------------------------------

pub fn match_lit(s: &str, i: usize, lit: &str) -> (r: Option<usize>)
    requires
        i <= s@.len(),
    ensures
        match r {
            Some(j) => sp_lit(s@, i as int, lit@) == Some(j as int) && i <= j <= s@.len(),
            None => sp_lit(s@, i as int, lit@) is None,
        },
{
    let n = lit.unicode_len();
    let sn = s.unicode_len();
    if n > sn - i {
        return None;
    }
    let mut k: usize = 0;
    while k < n
        invariant
            k <= n,
            i + n <= sn,
            sn == s@.len(),
            n == lit@.len(),
            forall|m: int| 0 <= m < k ==> s@[i + m] == lit@[m],
        decreases n - k,
    {
        if s.get_char(i + k) != lit.get_char(k) {
            proof {
                lemma_sp_lit_mismatch(s@, i as int, lit@, k as int);
            }
            return None;
        }
        k += 1;
    }
    proof {
        assert(s@.subrange(i as int, i + n) =~= lit@);
    }
    Some(i + n)
}

fn parse_str_body(s: &str, i: usize) -> (r: Option<(String, usize)>)
    requires
        i <= s@.len(),
    ensures
        match r {
            Some(t) => sp_str_body(s@, i as int) == Some((t.0@, t.1 as int)) && i < t.1
                <= s@.len(),
            None => sp_str_body(s@, i as int) is None,
        },
    decreases s@.len() - i,
{
    let sn = s.unicode_len();
    if i >= sn {
        return None;
    }
    let c = s.get_char(i);
    if c == '"' {
        Some((String::new(), i + 1))
    } else if c == '\\' {
        if i + 1 < sn {
            let c2 = s.get_char(i + 1);
            if c2 == '"' || c2 == '\\' {
                match parse_str_body(s, i + 2) {
                    Some((rest, j)) => {
                        let mut t = s.substring_char(i + 1, i + 2).to_owned();
                        t.append(rest.as_str());
                        proof {
                            assert(t@ =~= seq![s@[i + 1]] + rest@);
                        }
                        Some((t, j))
                    },
                    None => None,
                }
            } else {
                None
            }
        } else {
            None
        }
    } else {
        match parse_str_body(s, i + 1) {
            Some((rest, j)) => {
                let mut t = s.substring_char(i, i + 1).to_owned();
                t.append(rest.as_str());
                proof {
                    assert(t@ =~= seq![s@[i as int]] + rest@);
                }
                Some((t, j))
            },
            None => None,
        }
    }
}

pub fn parse_string_at(s: &str, i: usize) -> (r: Option<(String, usize)>)
    requires
        i <= s@.len(),
    ensures
        match r {
            Some(t) => sp_string(s@, i as int) == Some((t.0@, t.1 as int)) && i < t.1 <= s@.len(),
            None => sp_string(s@, i as int) is None,
        },
{
    let sn = s.unicode_len();
    if i >= sn {
        return None;
    }
    if s.get_char(i) != '"' {
        return None;
    }
    parse_str_body(s, i + 1)
}

pub fn parse_number_max(s: &str, i: usize, max: u64) -> (r: Option<(u64, usize)>)
    requires
        i <= s@.len(),
    ensures
        match r {
            Some(t) => sp_number_max(s@, i as int, max as nat) == Some((t.0 as nat, t.1 as int))
                && i < t.1 <= s@.len() && t.0 <= max,
            None => sp_number_max(s@, i as int, max as nat) is None,
        },
{
    let sn = s.unicode_len();
    if i >= sn {
        return None;
    }
    let c0 = s.get_char(i);
    let d0 = match digit_of(c0) {
        Some(d) => d,
        None => {
            return None;
        },
    };
    if d0 as u64 > max {
        proof {
            lemma_sp_digits_ge(s@, i + 1, digit_val(s@[i as int]));
        }
        return None;
    }
    let mut acc: u64 = d0 as u64;
    let mut k: usize = i + 1;
    loop
        invariant
            i < k <= sn,
            sn == s@.len(),
            acc <= max,
            sp_number(s@, i as int) == Some(sp_digits(s@, k as int, acc as nat)),
        decreases sn - k,
    {
        if k >= sn {
            return Some((acc, k));
        }
        let c = s.get_char(k);
        match digit_of(c) {
            Some(d) => {
                let wide: u128 = (acc as u128) * 10 + (d as u128);
                if wide > max as u128 {
                    proof {
                        lemma_sp_digits_ge(s@, k + 1, (acc * 10 + digit_val(s@[k as int])) as nat);
                    }
                    return None;
                }
                acc = wide as u64;
                k += 1;
            },
            None => {
                return Some((acc, k));
            },
        }
    }
}

fn digit_of(c: char) -> (r: Option<u8>)
    ensures
        match r {
            Some(d) => is_digit(c) && d < 10 && d as nat == digit_val(c),
            None => !is_digit(c),
        },
{
    if c == '0' {
        Some(0)
    } else if c == '1' {
        Some(1)
    } else if c == '2' {
        Some(2)
    } else if c == '3' {
        Some(3)
    } else if c == '4' {
        Some(4)
    } else if c == '5' {
        Some(5)
    } else if c == '6' {
        Some(6)
    } else if c == '7' {
        Some(7)
    } else if c == '8' {
        Some(8)
    } else if c == '9' {
        Some(9)
    } else {
        None
    }
}

pub fn parse_i64_at(s: &str, i: usize) -> (r: Option<(i64, usize)>)
    requires
        i <= s@.len(),
    ensures
        match r {
            Some(t) => sp_i64(s@, i as int) == Some((t.0 as int, t.1 as int)) && i < t.1
                <= s@.len(),
            None => sp_i64(s@, i as int) is None,
        },
{
    let sn = s.unicode_len();
    if i < sn && s.get_char(i) == '-' {
        match parse_number_max(s, i + 1, 0x8000_0000_0000_0000u64) {
            Some((mag, j)) => {
                let v: i64 = if mag == 0x8000_0000_0000_0000u64 {
                    i64::MIN
                } else {
                    -(mag as i64)
                };
                Some((v, j))
            },
            None => None,
        }
    } else {
        match parse_number_max(s, i, 0x7fff_ffff_ffff_ffffu64) {
            Some((v, j)) => Some((v as i64, j)),
            None => None,
        }
    }
}

pub fn parse_bool_at(s: &str, i: usize) -> (r: Option<(bool, usize)>)
    requires
        i <= s@.len(),
    ensures
        match r {
            Some(t) => sp_bool(s@, i as int) == Some((t.0, t.1 as int)) && i < t.1 <= s@.len(),
            None => sp_bool(s@, i as int) is None,
        },
{
    match match_lit(s, i, "true") {
        Some(j) => {
            proof {
                reveal_strlit("true");
            }
            Some((true, j))
        },
        None => match match_lit(s, i, "false") {
            Some(j) => {
                proof {
                    reveal_strlit("false");
                }
                Some((false, j))
            },
            None => None,
        },
    }
}

// ---------------------------------------------------------------------------
// Exec encoders
// ---------------------------------------------------------------------------

pub fn enc_json_string(out: &mut String, s: &str)
    ensures
        final(out)@ == old(out)@ + json_string(s@),
{
    out.append("\"");
    let n = s.unicode_len();
    let mut k: usize = 0;
    proof {
        reveal_strlit("\"");
        assert(escape(s@.subrange(0, 0)) =~= Seq::<char>::empty());
    }
    while k < n
        invariant
            k <= n,
            n == s@.len(),
            out@ == old(out)@ + seq!['"'] + escape(s@.subrange(0, k as int)),
        decreases n - k,
    {
        let c = s.get_char(k);
        proof {
            assert(s@.subrange(0, k + 1) =~= s@.subrange(0, k as int).push(s@[k as int]));
            lemma_escape_push(s@.subrange(0, k as int), s@[k as int]);
        }
        if c == '"' {
            out.append("\\\"");
            proof {
                reveal_strlit("\\\"");
                assert("\\\""@ =~= esc_char('"'));
            }
        } else if c == '\\' {
            out.append("\\\\");
            proof {
                reveal_strlit("\\\\");
                assert("\\\\"@ =~= esc_char('\\'));
            }
        } else {
            let piece = s.substring_char(k, k + 1);
            out.append(piece);
            proof {
                assert(piece@ =~= esc_char(s@[k as int]));
            }
        }
        k += 1;
    }
    out.append("\"");
    proof {
        assert(s@.subrange(0, n as int) =~= s@);
        assert(out@ =~= old(out)@ + json_string(s@));
    }
}

pub(crate) fn digit_str(d: u64) -> (r: &'static str)
    requires
        d < 10,
    ensures
        r@ == seq![digit_char(d as nat)],
{
    let r = if d == 0 {
        "0"
    } else if d == 1 {
        "1"
    } else if d == 2 {
        "2"
    } else if d == 3 {
        "3"
    } else if d == 4 {
        "4"
    } else if d == 5 {
        "5"
    } else if d == 6 {
        "6"
    } else if d == 7 {
        "7"
    } else if d == 8 {
        "8"
    } else {
        "9"
    };
    proof {
        reveal_strlit("0");
        reveal_strlit("1");
        reveal_strlit("2");
        reveal_strlit("3");
        reveal_strlit("4");
        reveal_strlit("5");
        reveal_strlit("6");
        reveal_strlit("7");
        reveal_strlit("8");
        reveal_strlit("9");
        assert(r@ =~= seq![digit_char(d as nat)]);
    }
    r
}

pub fn enc_u64(out: &mut String, v: u64)
    ensures
        final(out)@ == old(out)@ + dec_nat(v as nat),
    decreases v,
{
    if v < 10 {
        out.append(digit_str(v));
        proof {
            assert(out@ =~= old(out)@ + dec_nat(v as nat));
        }
    } else {
        enc_u64(out, v / 10);
        out.append(digit_str(v % 10));
        proof {
            assert(dec_nat(v as nat) == dec_nat((v as nat) / 10).push(digit_char((v as nat) % 10)));
            assert((v / 10) as nat == (v as nat) / 10);
            assert((v % 10) as nat == (v as nat) % 10);
            assert(out@ =~= old(out)@ + dec_nat(v as nat));
        }
    }
}

pub fn enc_i64(out: &mut String, v: i64)
    ensures
        final(out)@ == old(out)@ + dec_i64(v as int),
{
    if v >= 0 {
        enc_u64(out, v as u64);
    } else {
        out.append("-");
        let mag: u64 = (-(v as i128)) as u64;
        enc_u64(out, mag);
        proof {
            reveal_strlit("-");
            assert(mag as nat == (-(v as int)) as nat);
            assert(out@ =~= old(out)@ + dec_i64(v as int));
        }
    }
}

pub fn enc_bool(out: &mut String, b: bool)
    ensures
        final(out)@ == old(out)@ + bool_json(b),
{
    if b {
        out.append("true");
    } else {
        out.append("false");
    }
}

} // verus!
