//! The text that the library writes: decimal numbers, the keys under which
//! messages are certified, and the order in which keys compare.
use crate::external::principal_text;
use vstd::prelude::*;

verus! {

/// The character of the decimal digit `d`.
pub open spec fn digit_char(d: nat) -> char {
    (48 + d) as char
}

/// The decimal form of `n`, without leading zeros.
pub open spec fn decimal(n: nat) -> Seq<char>
    decreases n,
{
    if n < 10 {
        seq![digit_char(n)]
    } else {
        decimal(n / 10).push(digit_char(n % 10))
    }
}

/// `s` preceded by as many `0` as it takes to make it `width` characters long.
pub open spec fn zero_padded(s: Seq<char>, width: nat) -> Seq<char> {
    if s.len() < width {
        Seq::new((width - s.len()) as nat, |i: int| '0') + s
    } else {
        s
    }
}

/// The key under which the message with the given nonce, queued for the gateway
/// with the given principal, is certified: the gateway's text, `_`, and the nonce
/// padded with zeros to 20 digits.
pub open spec fn message_key(gateway: Seq<u8>, nonce: nat) -> Seq<char> {
    principal_text(gateway) + seq!['_'] + zero_padded(decimal(nonce), 20)
}

/// Strict lexicographic order of character sequences, by code point.
pub open spec fn seq_lt(a: Seq<char>, b: Seq<char>) -> bool
    decreases a.len(),
{
    if b.len() == 0 {
        false
    } else if a.len() == 0 {
        true
    } else if a[0] != b[0] {
        (a[0] as u32) < (b[0] as u32)
    } else {
        seq_lt(a.drop_first(), b.drop_first())
    }
}

/// A decimal digit is ASCII.
proof fn lemma_decimal_ascii(n: nat)
    ensures
        vstd::utf8::is_ascii_chars(decimal(n)),
        decimal(n).len() >= 1,
        decimal(n).len() <= 1 || n >= 10,
    decreases n,
{
    if n >= 10 {
        lemma_decimal_ascii(n / 10);
    }
}

/// Ten to the power `k`.
pub open spec fn pow10(k: nat) -> nat
    decreases k,
{
    if k == 0 {
        1
    } else {
        10 * pow10((k - 1) as nat)
    }
}

/// A number below 10^k has at most k digits.
proof fn lemma_decimal_len_bound(n: nat, k: nat)
    requires
        k >= 1,
        n < pow10(k),
    ensures
        decimal(n).len() <= k,
    decreases k,
{
    if n >= 10 {
        if k == 1 {
            assert(pow10(1) == 10) by {
                reveal_with_fuel(pow10, 2);
            }
        } else {
            let q = pow10((k - 1) as nat);
            assert(n / 10 < q) by (nonlinear_arith)
                requires
                    n < 10 * q,
            ;
            lemma_decimal_len_bound(n / 10, (k - 1) as nat);
        }
    }
}

/// A `u64` has at most 20 decimal digits.
pub proof fn lemma_u64_decimal_len(n: u64)
    ensures
        decimal(n as nat).len() <= 20,
        decimal(n as nat).len() >= 1,
        vstd::utf8::is_ascii_chars(decimal(n as nat)),
{
    lemma_decimal_ascii(n as nat);
    assert(pow10(20) == 100000000000000000000nat) by {
        reveal_with_fuel(pow10, 21);
    }
    lemma_decimal_len_bound(n as nat, 20);
}

/// `seq_lt` is irreflexive.
proof fn lemma_seq_lt_irreflexive(a: Seq<char>)
    ensures
        !seq_lt(a, a),
    decreases a.len(),
{
    if a.len() > 0 {
        lemma_seq_lt_irreflexive(a.drop_first());
    }
}

/// Appending one character to each of two sequences of the same length compares
/// them by the sequences first, then by the characters.
proof fn lemma_seq_lt_push(a: Seq<char>, b: Seq<char>, c: char, d: char)
    requires
        a.len() == b.len(),
    ensures
        seq_lt(a.push(c), b.push(d)) == (seq_lt(a, b) || (a == b && (c as u32) < (d as u32))),
    decreases a.len(),
{
    let pa = a.push(c);
    let pb = b.push(d);
    if a.len() == 0 {
        assert(a =~= b);
        assert(pa.drop_first() =~= Seq::<char>::empty());
        assert(pb.drop_first() =~= Seq::<char>::empty());
        assert(pa[0] == c && pb[0] == d);
        assert(!seq_lt(Seq::<char>::empty(), Seq::<char>::empty()));
        assert(!seq_lt(a, b));
        if c == d {
            assert(!seq_lt(pa, pb));
        } else {
            assert(seq_lt(pa, pb) == ((c as u32) < (d as u32)));
        }
    } else {
        let a1 = a.drop_first();
        let b1 = b.drop_first();
        assert(pa.drop_first() =~= a1.push(c));
        assert(pb.drop_first() =~= b1.push(d));
        assert(pa[0] == a[0] && pb[0] == b[0]);
        lemma_seq_lt_push(a1, b1, c, d);
        if a[0] == b[0] {
            assert(seq_lt(pa, pb) == seq_lt(a1.push(c), b1.push(d)));
            assert(seq_lt(a, b) == seq_lt(a1, b1));
            if a1 == b1 {
                assert forall|i: int| 0 <= i < a.len() implies a[i] == b[i] by {
                    if i > 0 {
                        assert(a1[i - 1] == b1[i - 1]);
                    }
                }
                assert(a =~= b);
            }
            if a == b {
                assert(a1 =~= b1);
            }
        } else {
            assert(a != b);
            assert(seq_lt(pa, pb) == ((a[0] as u32) < (b[0] as u32)));
            assert(seq_lt(a, b) == ((a[0] as u32) < (b[0] as u32)));
        }
    }
}

/// A common prefix does not change the order.
proof fn lemma_seq_lt_prefix(p: Seq<char>, a: Seq<char>, b: Seq<char>)
    ensures
        seq_lt(p + a, p + b) == seq_lt(a, b),
    decreases p.len(),
{
    if p.len() == 0 {
        assert(p + a =~= a);
        assert(p + b =~= b);
    } else {
        assert((p + a).drop_first() =~= p.drop_first() + a);
        assert((p + b).drop_first() =~= p.drop_first() + b);
        lemma_seq_lt_prefix(p.drop_first(), a, b);
    }
}

/// Below 10^k, the number padded to `k` digits is the padding of its tenth to
/// `k - 1` digits followed by its last digit.
proof fn lemma_zero_padded_step(n: nat, k: nat)
    requires
        k >= 2,
        n < pow10(k),
    ensures
        zero_padded(decimal(n), k) == zero_padded(decimal(n / 10), (k - 1) as nat).push(digit_char(n % 10)),
{
    let q = pow10((k - 1) as nat);
    assert(n / 10 < q) by (nonlinear_arith)
        requires
            n < 10 * q,
    ;
    lemma_decimal_len_bound(n / 10, (k - 1) as nat);
    lemma_decimal_len_bound(n, k);
    lemma_decimal_ascii(n);
    if n < 10 {
        assert(n / 10 == 0);
        assert(decimal(0) == seq![digit_char(0)]);
        assert(decimal(n) == seq![digit_char(n)]);
        assert(zero_padded(decimal(n), k) =~= zero_padded(decimal(n / 10), (k - 1) as nat).push(digit_char(n % 10)));
    } else {
        let d = decimal(n / 10);
        assert(decimal(n) == d.push(digit_char(n % 10)));
        assert(zero_padded(decimal(n), k) =~= zero_padded(d, (k - 1) as nat).push(digit_char(n % 10)));
    }
}

/// A number below 10^k padded to `k` digits has `k` characters.
proof fn lemma_zero_padded_len(n: nat, k: nat)
    requires
        k >= 1,
        n < pow10(k),
    ensures
        zero_padded(decimal(n), k).len() == k,
{
    lemma_decimal_len_bound(n, k);
}

/// Below 10^k, numbers padded to `k` digits compare as the numbers do, and are
/// equal exactly when the numbers are.
proof fn lemma_zero_padded_order(a: nat, b: nat, k: nat)
    requires
        k >= 1,
        a < pow10(k),
        b < pow10(k),
    ensures
        seq_lt(zero_padded(decimal(a), k), zero_padded(decimal(b), k)) == (a < b),
        (zero_padded(decimal(a), k) == zero_padded(decimal(b), k)) == (a == b),
    decreases k,
{
    if k == 1 {
        assert(pow10(1) == 10) by {
            reveal_with_fuel(pow10, 2);
        }
        let za = zero_padded(decimal(a), k);
        let zb = zero_padded(decimal(b), k);
        assert(za == seq![digit_char(a)]);
        assert(zb == seq![digit_char(b)]);
        assert(za.drop_first() =~= Seq::<char>::empty());
        assert(zb.drop_first() =~= Seq::<char>::empty());
        assert((digit_char(a) as u32) == 48 + a);
        assert((digit_char(b) as u32) == 48 + b);
        assert(!seq_lt(Seq::<char>::empty(), Seq::<char>::empty()));
        if a != b {
            assert(za[0] != zb[0]);
        } else {
            assert(!seq_lt(za, zb));
        }
    } else {
        let k1 = (k - 1) as nat;
        let q = pow10(k1);
        assert(a / 10 < q && b / 10 < q) by (nonlinear_arith)
            requires
                a < 10 * q,
                b < 10 * q,
        ;
        lemma_zero_padded_step(a, k);
        lemma_zero_padded_step(b, k);
        lemma_zero_padded_order(a / 10, b / 10, k1);
        lemma_zero_padded_len(a / 10, k1);
        lemma_zero_padded_len(b / 10, k1);
        let za = zero_padded(decimal(a / 10), k1);
        let zb = zero_padded(decimal(b / 10), k1);
        lemma_seq_lt_push(za, zb, digit_char(a % 10), digit_char(b % 10));
        assert((digit_char(a % 10) as u32) == 48 + a % 10);
        assert((digit_char(b % 10) as u32) == 48 + b % 10);
        assert((a < b) == (a / 10 < b / 10 || (a / 10 == b / 10 && a % 10 < b % 10))) by (nonlinear_arith);
        assert((a == b) == (a / 10 == b / 10 && a % 10 == b % 10)) by (nonlinear_arith);
        if za.push(digit_char(a % 10)) == zb.push(digit_char(b % 10)) {
            assert(za =~= zb) by {
                assert forall|i: int| 0 <= i < za.len() implies za[i] == zb[i] by {
                    assert(za.push(digit_char(a % 10))[i] == zb.push(digit_char(b % 10))[i]);
                }
            }
            assert(za.push(digit_char(a % 10))[za.len() as int] == zb.push(digit_char(b % 10))[za.len() as int]);
        }
    }
}

/// Keys of messages for the same gateway compare as their nonces do, and are
/// equal exactly when the nonces are.
pub proof fn lemma_message_key_order(gateway: Seq<u8>, a: u64, b: u64)
    ensures
        seq_lt(message_key(gateway, a as nat), message_key(gateway, b as nat)) == (a < b),
        (message_key(gateway, a as nat) == message_key(gateway, b as nat)) == (a == b),
{
    assert(pow10(20) == 100000000000000000000nat) by {
        reveal_with_fuel(pow10, 21);
    }
    let p = principal_text(gateway) + seq!['_'];
    let za = zero_padded(decimal(a as nat), 20);
    let zb = zero_padded(decimal(b as nat), 20);
    assert(message_key(gateway, a as nat) =~= p + za);
    assert(message_key(gateway, b as nat) =~= p + zb);
    lemma_zero_padded_order(a as nat, b as nat, 20);
    lemma_seq_lt_prefix(p, za, zb);
    if p + za == p + zb {
        assert(za =~= zb) by {
            assert forall|i: int| 0 <= i < za.len() implies za[i] == zb[i] by {
                assert((p + za)[p.len() + i] == (p + zb)[p.len() + i]);
            }
            lemma_zero_padded_len(a as nat, 20);
            lemma_zero_padded_len(b as nat, 20);
        }
    }
}

/// Equal message keys come from principals with the same text and from the
/// same nonce.
pub proof fn lemma_message_key_injective(a: Seq<u8>, b: Seq<u8>, n: u64, m: u64)
    requires
        message_key(a, n as nat) == message_key(b, m as nat),
    ensures
        principal_text(a) == principal_text(b),
        n == m,
{
    assert(pow10(20) == 100000000000000000000nat) by {
        reveal_with_fuel(pow10, 21);
    }
    lemma_zero_padded_len(n as nat, 20);
    lemma_zero_padded_len(m as nat, 20);
    let ta = principal_text(a);
    let tb = principal_text(b);
    let za = zero_padded(decimal(n as nat), 20);
    let zb = zero_padded(decimal(m as nat), 20);
    let ka = message_key(a, n as nat);
    let kb = message_key(b, m as nat);
    assert(ka.len() == ta.len() + 21);
    assert(kb.len() == tb.len() + 21);
    assert(ta.len() == tb.len());
    assert forall|i: int| 0 <= i < ta.len() implies ta[i] == tb[i] by {
        assert(ka[i] == ta[i]);
        assert(kb[i] == tb[i]);
    }
    assert(ta =~= tb);
    assert forall|i: int| 0 <= i < 20 implies za[i] == zb[i] by {
        assert(ka[ta.len() + 1 + i] == za[i]);
        assert(kb[tb.len() + 1 + i] == zb[i]);
    }
    assert(za =~= zb);
    lemma_zero_padded_order(n as nat, m as nat, 20);
}

/// The one-character string of the decimal digit `d`.
fn digit_str(d: u64) -> (s: &'static str)
    requires
        d < 10,
    ensures
        s@ == seq![digit_char(d as nat)],
{
    proof {
        reveal_strlit("0");
        reveal_strlit("1");
        reveal_strlit("2");
        reveal_strlit("3");
        reveal_strlit("4");
        reveal_strlit("5");
        reveal_strlit("6");
        reveal_strlit("7");
        reveal_strlit("8");
        reveal_strlit("9");
    }
    let s = if d == 0 {
        "0"
    } else if d == 1 {
        "1"
    } else if d == 2 {
        "2"
    } else if d == 3 {
        "3"
    } else if d == 4 {
        "4"
    } else if d == 5 {
        "5"
    } else if d == 6 {
        "6"
    } else if d == 7 {
        "7"
    } else if d == 8 {
        "8"
    } else {
        "9"
    };
    assert(s@ =~= seq![digit_char(d as nat)]);
    s
}

/// Appends the decimal form of `n` to `out`.
pub fn push_decimal(out: &mut String, n: u64)
    ensures
        final(out)@ == old(out)@ + decimal(n as nat),
    decreases n,
{
    if n >= 10 {
        push_decimal(out, n / 10);
    }
    out.append(digit_str(n % 10));
    proof {
        if n >= 10 {
            assert(decimal(n as nat) == decimal((n / 10) as nat).push(digit_char((n % 10) as nat)));
        }
        assert(final(out)@ =~= old(out)@ + decimal(n as nat)) by {
            if n < 10 {
                assert(n % 10 == n);
            }
        }
    }
}

/// The number of decimal digits of `n`.
fn decimal_len(n: u64) -> (len: usize)
    ensures
        len == decimal(n as nat).len(),
    decreases n,
{
    proof {
        lemma_u64_decimal_len(n);
    }
    if n >= 10 {
        proof {
            lemma_u64_decimal_len(n / 10);
        }
        decimal_len(n / 10) + 1
    } else {
        1
    }
}

/// The decimal form of `n`.
pub fn u64_to_string(n: u64) -> (s: String)
    ensures
        s@ == decimal(n as nat),
        vstd::utf8::is_ascii_chars(s@),
{
    proof {
        reveal_strlit("");
        lemma_u64_decimal_len(n);
    }
    let mut s = String::from_str("");
    push_decimal(&mut s, n);
    assert(s@ =~= decimal(n as nat));
    s
}

/// Appends the decimal form of `n` to `out`, padded with zeros to 20 digits.
pub fn push_padded_decimal(out: &mut String, n: u64)
    ensures
        final(out)@ == old(out)@ + zero_padded(decimal(n as nat), 20),
{
    proof {
        reveal_strlit("0");
        lemma_u64_decimal_len(n);
    }
    let len = decimal_len(n);
    let ghost start = out@;
    let mut k: usize = len;
    while k < 20
        invariant
            len == decimal(n as nat).len(),
            len <= k <= 20,
            out@ == start + Seq::new((k - len) as nat, |i: int| '0'),
        decreases 20 - k,
    {
        proof {
            reveal_strlit("0");
        }
        out.append("0");
        k = k + 1;
        assert(out@ =~= start + Seq::new((k - len) as nat, |i: int| '0'));
    }
    push_decimal(out, n);
    proof {
        if len < 20 {
            assert(out@ =~= start + zero_padded(decimal(n as nat), 20));
        } else {
            assert(Seq::new((k - len) as nat, |i: int| '0') =~= Seq::<char>::empty());
            assert(out@ =~= start + zero_padded(decimal(n as nat), 20));
        }
    }
}

/// The key under which the message with nonce `nonce` for the gateway with the
/// given text is certified.
pub fn format_message_for_gateway_key(gateway_text: &String, nonce: u64) -> (key: String)
    requires
        vstd::utf8::is_ascii_chars(gateway_text@),
    ensures
        key@ == gateway_text@ + seq!['_'] + zero_padded(decimal(nonce as nat), 20),
        vstd::utf8::is_ascii_chars(key@),
{
    proof {
        reveal_strlit("_");
        lemma_u64_decimal_len(nonce);
    }
    let mut key = gateway_text.clone();
    key.append("_");
    push_padded_decimal(&mut key, nonce);
    proof {
        let d = decimal(nonce as nat);
        let z = zero_padded(d, 20);
        assert(vstd::utf8::is_ascii_chars(z)) by {
            assert forall|i: int| 0 <= i < z.len() implies '\0' <= #[trigger] z[i] <= '\u{7f}' by {
                if d.len() < 20 {
                    if i >= 20 - d.len() {
                        assert(z[i] == d[i - (20 - d.len())]);
                    }
                }
            }
        }
        let k = key@;
        assert forall|i: int| 0 <= i < k.len() implies '\0' <= #[trigger] k[i] <= '\u{7f}' by {
            let t = gateway_text@;
            if i < t.len() {
                assert(k[i] == t[i]);
            } else if i == t.len() {
                assert(k[i] == '_');
            } else {
                assert(k[i] == z[i - t.len() - 1]);
            }
        }
    }
    key
}

/// Whether `a` comes strictly before `b` in lexicographic order.
pub fn string_lt(a: &String, b: &String) -> (lt: bool)
    requires
        vstd::utf8::is_ascii_chars(a@),
        vstd::utf8::is_ascii_chars(b@),
    ensures
        lt == seq_lt(a@, b@),
{
    let sa = a.as_str();
    let sb = b.as_str();
    let la = sa.unicode_len();
    let lb = sb.unicode_len();
    let mut i: usize = 0;
    assert(a@.subrange(0, la as int) =~= a@);
    assert(b@.subrange(0, lb as int) =~= b@);
    while i < la && i < lb
        invariant
            sa@ == a@,
            sb@ == b@,
            la == a@.len(),
            lb == b@.len(),
            i <= la,
            i <= lb,
            vstd::utf8::is_ascii_chars(a@),
            vstd::utf8::is_ascii_chars(b@),
            a@.subrange(0, i as int) == b@.subrange(0, i as int),
            seq_lt(a@, b@) == seq_lt(a@.subrange(i as int, la as int), b@.subrange(i as int, lb as int)),
        decreases la - i,
    {
        let ca = sa.get_char(i);
        let cb = sb.get_char(i);
        let ghost ra = a@.subrange(i as int, la as int);
        let ghost rb = b@.subrange(i as int, lb as int);
        assert(ra[0] == ca && rb[0] == cb);
        if ca != cb {
            return (ca as u32) < (cb as u32);
        }
        assert(ra.drop_first() =~= a@.subrange(i + 1, la as int));
        assert(rb.drop_first() =~= b@.subrange(i + 1, lb as int));
        assert(a@.subrange(0, i + 1) =~= a@.subrange(0, i as int).push(ca));
        assert(b@.subrange(0, i + 1) =~= b@.subrange(0, i as int).push(cb));
        i = i + 1;
    }
    i < lb
}

/// The number that decimal digits write, most significant first.
pub open spec fn decimal_value(s: Seq<char>) -> nat
    decreases s.len(),
{
    if s.len() == 0 {
        0
    } else {
        decimal_value(s.drop_last()) * 10 + (s.last() as nat - 48) as nat
    }
}

/// Whether a character is a decimal digit.
pub open spec fn is_decimal_digit(c: char) -> bool {
    48 <= c as nat <= 57
}

/// A number below 10^k padded to `k` digits is made of decimal digits that
/// write it.
proof fn lemma_zero_padded_value(n: nat, k: nat)
    requires
        k >= 1,
        n < pow10(k),
    ensures
        forall|i: int| 0 <= i < zero_padded(decimal(n), k).len() ==> is_decimal_digit(#[trigger] zero_padded(decimal(n), k)[i]),
        decimal_value(zero_padded(decimal(n), k)) == n,
    decreases k,
{
    lemma_zero_padded_len(n, k);
    if k == 1 {
        assert(pow10(1) == 10) by {
            reveal_with_fuel(pow10, 2);
        }
        let z = zero_padded(decimal(n), 1);
        lemma_decimal_ascii(n);
        assert(decimal(n) == seq![digit_char(n)]);
        assert(z =~= seq![digit_char(n)]);
        assert(digit_char(n) as nat == 48 + n);
        assert(z.drop_last() =~= Seq::<char>::empty());
        assert(z.last() == digit_char(n));
        assert(decimal_value(z) == decimal_value(z.drop_last()) * 10 + (z.last() as nat - 48) as nat);
    } else {
        let q = pow10((k - 1) as nat);
        assert(n / 10 < q) by (nonlinear_arith)
            requires
                n < 10 * q,
        ;
        lemma_zero_padded_step(n, k);
        lemma_zero_padded_value(n / 10, (k - 1) as nat);
        let z = zero_padded(decimal(n), k);
        let z1 = zero_padded(decimal(n / 10), (k - 1) as nat);
        assert(z.drop_last() =~= z1);
        assert(z.last() == digit_char(n % 10));
        assert(digit_char(n % 10) as nat == 48 + n % 10);
        assert(decimal_value(z) == decimal_value(z1) * 10 + (z.last() as nat - 48) as nat);
        assert(n == (n / 10) * 10 + n % 10) by (nonlinear_arith);
        assert forall|i: int| 0 <= i < z.len() implies is_decimal_digit(#[trigger] z[i]) by {
            if i < z1.len() {
                assert(z[i] == z1[i]);
            }
        }
    }
}

/// A message key reads back: the gateway's principal text, `_`, then 20
/// decimal digits that write the nonce.
pub proof fn lemma_message_key_reads_back(gateway: Seq<u8>, nonce: u64)
    ensures
        message_key(gateway, nonce as nat).len() == principal_text(gateway).len() + 21,
        message_key(gateway, nonce as nat).subrange(0, principal_text(gateway).len() as int) == principal_text(gateway),
        message_key(gateway, nonce as nat)[principal_text(gateway).len() as int] == '_',
        forall|i: int| principal_text(gateway).len() < i < message_key(gateway, nonce as nat).len()
            ==> is_decimal_digit(#[trigger] message_key(gateway, nonce as nat)[i]),
        decimal_value(message_key(gateway, nonce as nat).subrange(
            (principal_text(gateway).len() + 1) as int, message_key(gateway, nonce as nat).len() as int,
        )) == nonce,
{
    assert(pow10(20) == 100000000000000000000nat) by {
        reveal_with_fuel(pow10, 21);
    }
    let t = principal_text(gateway);
    let z = zero_padded(decimal(nonce as nat), 20);
    lemma_zero_padded_value(nonce as nat, 20);
    lemma_zero_padded_len(nonce as nat, 20);
    let key = message_key(gateway, nonce as nat);
    assert(key =~= t + seq!['_'] + z);
    assert(key.subrange(0, t.len() as int) =~= t);
    assert(key.subrange((t.len() + 1) as int, key.len() as int) =~= z);
    assert forall|i: int| t.len() < i < key.len() implies is_decimal_digit(#[trigger] key[i]) by {
        assert(key[i] == z[i - t.len() - 1]);
    }
}

} // verus!
