//! Byte-string helpers shared by the whole library.
//!
//! All text handled by this crate (history lines, command names, package
//! names, file names) is kept as raw bytes, so the helpers here are the
//! vocabulary that the other modules' contracts are written in.

use vstd::prelude::*;
use vstd::slice::slice_to_vec;

verus! {

/// The sequence-of-sequences view of a vector of byte vectors.
pub open spec fn views(v: Seq<Vec<u8>>) -> Seq<Seq<u8>> {
    v.map_values(|x: Vec<u8>| x@)
}

pub proof fn lemma_views_push(v: Seq<Vec<u8>>, x: Vec<u8>)
    ensures
        views(v.push(x)) =~= views(v).push(x@),
{
}

pub proof fn lemma_views_concat(a: Seq<Vec<u8>>, b: Seq<Vec<u8>>)
    ensures
        views(a + b) =~= views(a) + views(b),
{
}

/// True when the two byte slices hold the same bytes.
pub fn bytes_eq(a: &[u8], b: &[u8]) -> (r: bool)
    ensures
        r == (a@ == b@),
{
    if a.len() != b.len() {
        return false;
    }
    let mut i: usize = 0;
    while i < a.len()
        invariant
            0 <= i <= a@.len(),
            a@.len() == b@.len(),
            forall|j: int| 0 <= j < i ==> a@[j] == b@[j],
        decreases a@.len() - i,
    {
        if a[i] != b[i] {
            return false;
        }
        i += 1;
    }
    proof {
        assert(a@ =~= b@);
    }
    true
}

/// Appends all bytes of `s` to `v`.
pub fn push_bytes(v: &mut Vec<u8>, s: &[u8])
    ensures
        final(v)@ == old(v)@ + s@,
{
    let mut i: usize = 0;
    while i < s.len()
        invariant
            0 <= i <= s@.len(),
            v@ =~= old(v)@ + s@.take(i as int),
        decreases s@.len() - i,
    {
        v.push(s[i]);
        proof {
            assert(s@.take(i + 1) =~= s@.take(i as int).push(s@[i as int]));
        }
        i += 1;
    }
    proof {
        assert(s@.take(s@.len() as int) =~= s@);
    }
}

/// A fresh vector holding the bytes of `s`.
pub fn copy_bytes(s: &[u8]) -> (r: Vec<u8>)
    ensures
        r@ == s@,
{
    slice_to_vec(s)
}

/// The concatenation of two byte strings.
pub fn concat_bytes(a: &[u8], b: &[u8]) -> (r: Vec<u8>)
    ensures
        r@ == a@ + b@,
{
    let mut r: Vec<u8> = slice_to_vec(a);
    push_bytes(&mut r, b);
    r
}

/// The bytes of an ASCII string literal.
pub fn lit_bytes(s: &str) -> (r: Vec<u8>)
    requires
        s.is_ascii(),
    ensures
        r@.len() == s@.len(),
        forall|i: int| 0 <= i < s@.len() ==> r@[i] == s@[i] as u8,
{
    proof {
        vstd::string::is_ascii_spec_bytes(s);
    }
    s.as_bytes_vec()
}

/// An option on byte vectors, seen as an option on byte strings.
pub open spec fn opt_view(o: Option<Vec<u8>>) -> Option<Seq<u8>> {
    match o {
        Some(v) => Some(v@),
        None => None,
    }
}

/// An ASCII decimal digit.
pub open spec fn is_digit(b: u8) -> bool {
    '0' as u8 <= b <= '9' as u8
}

/// Every byte of `s` is a decimal digit.
pub open spec fn all_digits(s: Seq<u8>) -> bool {
    forall|i: int| 0 <= i < s.len() ==> is_digit(s[i])
}

/// The number denoted by a string of decimal digits (most significant first).
pub open spec fn dec_value(s: Seq<u8>) -> nat
    decreases s.len(),
{
    if s.len() == 0 {
        0
    } else {
        dec_value(s.drop_last()) * 10 + (s.last() - '0' as u8) as nat
    }
}

/// The canonical decimal digit string of a number (no leading zeros).
pub open spec fn dec_digits(n: nat) -> Seq<u8>
    decreases n,
{
    if n < 10 {
        seq![('0' as u8 + n) as u8]
    } else {
        dec_digits(n / 10).push(('0' as u8 + n % 10) as u8)
    }
}

pub proof fn lemma_dec_digits_are_digits(n: nat)
    ensures
        dec_digits(n).len() >= 1,
        all_digits(dec_digits(n)),
    decreases n,
{
    if n >= 10 {
        lemma_dec_digits_are_digits(n / 10);
    }
}

/// Decoding the canonical digit string gives the number back.
pub proof fn lemma_dec_round_trip(n: nat)
    ensures
        dec_value(dec_digits(n)) == n,
    decreases n,
{
    if n < 10 {
        assert(dec_digits(n).drop_last() =~= Seq::<u8>::empty());
        assert(dec_digits(n).last() == ('0' as u8 + n) as u8);
        assert((('0' as u8 + n) as u8 - '0' as u8) as nat == n);
        assert(dec_value(dec_digits(n)) == dec_value(dec_digits(n).drop_last()) * 10 + (dec_digits(
            n,
        ).last() - '0' as u8) as nat);
        assert(dec_value(dec_digits(n)) == n);
    } else {
        lemma_dec_round_trip(n / 10);
        assert(dec_digits(n).drop_last() =~= dec_digits(n / 10));
        assert(dec_digits(n).last() == ('0' as u8 + n % 10) as u8);
        assert((('0' as u8 + n % 10) as u8 - '0' as u8) as nat == n % 10);
        assert(n / 10 * 10 + n % 10 == n);
    }
}

/// A digit string is worth at least as much as any of its prefixes.
pub proof fn lemma_dec_value_prefix(s: Seq<u8>, j: int)
    requires
        0 <= j <= s.len(),
        all_digits(s),
    ensures
        dec_value(s.take(j)) <= dec_value(s),
    decreases s.len() - j,
{
    if j == s.len() {
        assert(s.take(j) =~= s);
    } else {
        assert(s.take(j + 1).drop_last() =~= s.take(j));
        assert(s.take(j + 1).last() == s[j]);
        lemma_dec_value_prefix(s, j + 1);
    }
}

/// Parses a decimal number; `None` when the bytes are not a non-empty run of
/// digits or the value does not fit in a `u64`.
pub fn parse_decimal(s: &[u8]) -> (r: Option<u64>)
    ensures
        r is Some <==> (s@.len() > 0 && all_digits(s@) && dec_value(s@) <= u64::MAX),
        r matches Some(v) ==> v == dec_value(s@),
{
    if s.len() == 0 {
        return None;
    }
    let mut acc: u64 = 0;
    let mut i: usize = 0;
    while i < s.len()
        invariant
            0 <= i <= s@.len(),
            all_digits(s@.take(i as int)),
            acc == dec_value(s@.take(i as int)),
        decreases s@.len() - i,
    {
        let b = s[i];
        if b < ('0' as u8) || b > ('9' as u8) {
            return None;
        }
        let d: u64 = (b - ('0' as u8)) as u64;
        if acc > (u64::MAX - d) / 10 {
            proof {
                assert(s@.take(i + 1).drop_last() =~= s@.take(i as int));
                assert(s@.take(i + 1).last() == s@[i as int]);
                assert(dec_value(s@.take(i + 1)) == acc * 10 + d);
                assert(acc * 10 + d > u64::MAX) by {
                    assert(acc >= (u64::MAX - d) / 10 + 1);
                    assert(((u64::MAX - d) / 10 + 1) * 10 == ((u64::MAX - d) / 10) * 10 + 10);
                    assert(((u64::MAX - d) / 10) * 10 + (u64::MAX - d) % 10 == u64::MAX - d);
                    assert(acc * 10 >= ((u64::MAX - d) / 10 + 1) * 10) by (nonlinear_arith)
                        requires
                            acc >= (u64::MAX - d) / 10 + 1,
                    ;
                }
                if all_digits(s@) {
                    lemma_dec_value_prefix(s@, i + 1);
                }
            }
            return None;
        }
        proof {
            assert(acc * 10 + d <= u64::MAX) by {
                assert(((u64::MAX - d) / 10) * 10 + (u64::MAX - d) % 10 == u64::MAX - d);
                assert(acc * 10 <= ((u64::MAX - d) / 10) * 10) by (nonlinear_arith)
                    requires
                        acc <= (u64::MAX - d) / 10,
                ;
            }
            assert(s@.take(i + 1).drop_last() =~= s@.take(i as int));
            assert(s@.take(i + 1).last() == s@[i as int]);
        }
        acc = acc * 10 + d;
        i += 1;
    }
    proof {
        assert(s@.take(s@.len() as int) =~= s@);
    }
    Some(acc)
}

/// The canonical decimal digit string of a `u64`.
pub fn u64_to_decimal(n: u64) -> (r: Vec<u8>)
    ensures
        r@ == dec_digits(n as nat),
    decreases n,
{
    if n < 10 {
        let mut v: Vec<u8> = Vec::new();
        v.push('0' as u8 + n as u8);
        proof {
            assert(v@ =~= dec_digits(n as nat));
        }
        v
    } else {
        let mut v: Vec<u8> = u64_to_decimal(n / 10);
        v.push('0' as u8 + (n % 10) as u8);
        proof {
            assert(v@ =~= dec_digits(n as nat));
        }
        v
    }
}

/// Ten to the `k`-th power.
pub open spec fn pow10(k: nat) -> nat
    decreases k,
{
    if k == 0 {
        1nat
    } else {
        10 * pow10((k - 1) as nat)
    }
}

pub proof fn lemma_all_digits_drop_last(s: Seq<u8>)
    requires
        all_digits(s),
        s.len() > 0,
    ensures
        all_digits(s.drop_last()),
{
    assert forall|i: int| 0 <= i < s.drop_last().len() implies is_digit(s.drop_last()[i]) by {
        assert(s.drop_last()[i] == s[i]);
    }
}

pub proof fn lemma_pow10_monotone(a: nat, b: nat)
    requires
        a <= b,
    ensures
        pow10(a) <= pow10(b),
    decreases b,
{
    if a < b {
        lemma_pow10_monotone(a, (b - 1) as nat);
    }
}

/// A string of `k` digits denotes less than ten to the `k`.
pub proof fn lemma_dec_value_upper(s: Seq<u8>)
    requires
        all_digits(s),
    ensures
        dec_value(s) < pow10(s.len()),
    decreases s.len(),
{
    if s.len() > 0 {
        lemma_all_digits_drop_last(s);
        lemma_dec_value_upper(s.drop_last());
        assert(is_digit(s.last()));
        assert(pow10(s.len()) == 10 * pow10((s.len() - 1) as nat));
    }
}

/// A digit string without a leading zero denotes at least ten to the power
/// of its length less one.
pub proof fn lemma_dec_value_lower(s: Seq<u8>)
    requires
        all_digits(s),
        s.len() > 0,
        s[0] != '0' as u8,
    ensures
        dec_value(s) >= pow10((s.len() - 1) as nat),
    decreases s.len(),
{
    if s.len() == 1 {
        assert(s.drop_last() =~= Seq::<u8>::empty());
        assert(is_digit(s[0]));
    } else {
        lemma_all_digits_drop_last(s);
        assert(s.drop_last()[0] == s[0]);
        lemma_dec_value_lower(s.drop_last());
        assert(pow10((s.len() - 1) as nat) == 10 * pow10((s.len() - 2) as nat));
    }
}

/// A leading zero does not change the denoted number.
pub proof fn lemma_dec_value_skip_zero(s: Seq<u8>)
    requires
        s.len() > 0,
        s[0] == '0' as u8,
    ensures
        dec_value(s.skip(1)) == dec_value(s),
    decreases s.len(),
{
    if s.len() == 1 {
        assert(s.skip(1) =~= Seq::<u8>::empty());
        assert(s.drop_last() =~= Seq::<u8>::empty());
    } else {
        lemma_dec_value_skip_zero(s.drop_last());
        assert(s.skip(1).drop_last() =~= s.drop_last().skip(1));
        assert(s.skip(1).last() == s.last());
    }
}

/// Leading zeros do not change the denoted number.
pub proof fn lemma_dec_value_skip_zeros(s: Seq<u8>, i: int)
    requires
        0 <= i <= s.len(),
        forall|j: int| 0 <= j < i ==> s[j] == '0' as u8,
    ensures
        dec_value(s.skip(i)) == dec_value(s),
    decreases i,
{
    if i == 0 {
        assert(s.skip(0) =~= s);
    } else {
        lemma_dec_value_skip_zero(s);
        lemma_dec_value_skip_zeros(s.skip(1), i - 1);
        assert(s.skip(1).skip(i - 1) =~= s.skip(i));
    }
}

/// Of two equally long digit strings, the one that is smaller at the first
/// differing position denotes the smaller number.
pub proof fn lemma_dec_value_lex(a: Seq<u8>, b: Seq<u8>, k: int)
    requires
        all_digits(a),
        all_digits(b),
        a.len() == b.len(),
        0 <= k < a.len(),
        forall|j: int| 0 <= j < k ==> a[j] == b[j],
        a[k] < b[k],
    ensures
        dec_value(a) < dec_value(b),
    decreases a.len(),
{
    if k == a.len() - 1 {
        assert(a.drop_last() =~= b.drop_last());
        assert(is_digit(a.last()) && is_digit(b.last()));
    } else {
        lemma_all_digits_drop_last(a);
        lemma_all_digits_drop_last(b);
        lemma_dec_value_lex(a.drop_last(), b.drop_last(), k);
        assert(is_digit(a.last()) && is_digit(b.last()));
        assert(dec_value(a) == dec_value(a.drop_last()) * 10 + (a.last() - '0' as u8) as nat);
        assert(dec_value(b) == dec_value(b.drop_last()) * 10 + (b.last() - '0' as u8) as nat);
        assert(dec_value(a.drop_last()) * 10 + 10 <= dec_value(b.drop_last()) * 10) by (
        nonlinear_arith)
            requires
                dec_value(a.drop_last()) < dec_value(b.drop_last()),
        ;
    }
}

proof fn lemma_all_digits_skip(s: Seq<u8>, i: int)
    requires
        all_digits(s),
        0 <= i <= s.len(),
    ensures
        all_digits(s.skip(i)),
{
    assert forall|j: int| 0 <= j < s.skip(i).len() implies is_digit(s.skip(i)[j]) by {
        assert(s.skip(i)[j] == s[i + j]);
    }
}

/// Compares the numbers two digit strings denote.
pub fn dec_le(a: &[u8], b: &[u8]) -> (r: bool)
    requires
        all_digits(a@),
        all_digits(b@),
    ensures
        r == (dec_value(a@) <= dec_value(b@)),
{
    let mut ia: usize = 0;
    while ia < a.len() && a[ia] == ('0' as u8)
        invariant
            0 <= ia <= a@.len(),
            forall|j: int| 0 <= j < ia ==> a@[j] == '0' as u8,
        decreases a@.len() - ia,
    {
        ia += 1;
    }
    let mut ib: usize = 0;
    while ib < b.len() && b[ib] == ('0' as u8)
        invariant
            0 <= ib <= b@.len(),
            forall|j: int| 0 <= j < ib ==> b@[j] == '0' as u8,
        decreases b@.len() - ib,
    {
        ib += 1;
    }
    let ghost sa = a@.skip(ia as int);
    let ghost sb = b@.skip(ib as int);
    proof {
        lemma_dec_value_skip_zeros(a@, ia as int);
        lemma_dec_value_skip_zeros(b@, ib as int);
        lemma_all_digits_skip(a@, ia as int);
        lemma_all_digits_skip(b@, ib as int);
    }
    let la = a.len() - ia;
    let lb = b.len() - ib;
    if la < lb {
        proof {
            lemma_dec_value_upper(sa);
            lemma_dec_value_lower(sb);
            lemma_pow10_monotone(la as nat, (lb - 1) as nat);
        }
        return true;
    }
    if lb < la {
        proof {
            lemma_dec_value_upper(sb);
            lemma_dec_value_lower(sa);
            lemma_pow10_monotone(lb as nat, (la - 1) as nat);
        }
        return false;
    }
    let mut m: usize = 0;
    while m < la
        invariant
            0 <= m <= la,
            la == lb,
            ia + la == a@.len(),
            ib + lb == b@.len(),
            a@.len() <= usize::MAX,
            b@.len() <= usize::MAX,
            all_digits(a@),
            all_digits(b@),
            sa == a@.skip(ia as int),
            sb == b@.skip(ib as int),
            sa.len() == la,
            sb.len() == lb,
            all_digits(sa),
            all_digits(sb),
            dec_value(sa) == dec_value(a@),
            dec_value(sb) == dec_value(b@),
            forall|j: int| 0 <= j < m ==> sa[j] == sb[j],
        decreases la - m,
    {
        let ca = a[ia + m];
        let cb = b[ib + m];
        proof {
            assert(sa[m as int] == a@[ia + m]);
            assert(sb[m as int] == b@[ib + m]);
        }
        if ca < cb {
            proof {
                lemma_dec_value_lex(sa, sb, m as int);
            }
            return true;
        }
        if cb < ca {
            proof {
                lemma_dec_value_lex(sb, sa, m as int);
            }
            return false;
        }
        m += 1;
    }
    proof {
        assert(sa =~= sb);
    }
    true
}

/// A line with a trailing carriage return removed, as `str::lines` does it.
pub open spec fn strip_cr(l: Seq<u8>) -> Seq<u8> {
    if l.len() > 0 && l.last() == '\r' as u8 {
        l.drop_last()
    } else {
        l
    }
}

/// The lines of `s`, split at `\n`, each with a trailing `\r` removed;
/// `cur` is the (not yet terminated) line read so far.
pub open spec fn lines_rec(s: Seq<u8>, cur: Seq<u8>) -> Seq<Seq<u8>>
    decreases s.len(),
{
    if s.len() == 0 {
        if cur.len() == 0 {
            Seq::empty()
        } else {
            seq![strip_cr(cur)]
        }
    } else if s[0] == '\n' as u8 {
        seq![strip_cr(cur)] + lines_rec(s.skip(1), Seq::empty())
    } else {
        lines_rec(s.skip(1), cur.push(s[0]))
    }
}

/// The lines of a text, with the semantics of `str::lines`: terminators are
/// `\n` or `\r\n`, and a final unterminated line still counts.
pub open spec fn spec_lines(s: Seq<u8>) -> Seq<Seq<u8>> {
    lines_rec(s, Seq::empty())
}

fn strip_cr_vec(l: Vec<u8>) -> (r: Vec<u8>)
    ensures
        r@ == strip_cr(l@),
{
    let ghost l0: Seq<u8> = l@;
    let mut r: Vec<u8> = l;
    if r.len() > 0 && r[r.len() - 1] == ('\r' as u8) {
        r.pop();
        proof {
            assert(r@ =~= strip_cr(l0));
        }
    }
    r
}

/// Splits a text into its lines.
pub fn split_lines(s: &[u8]) -> (r: Vec<Vec<u8>>)
    ensures
        views(r@) == spec_lines(s@),
{
    let mut out: Vec<Vec<u8>> = Vec::new();
    let mut cur: Vec<u8> = Vec::new();
    let mut i: usize = 0;
    proof {
        assert(s@.skip(0) =~= s@);
        assert(views(out@) =~= Seq::<Seq<u8>>::empty());
    }
    while i < s.len()
        invariant
            0 <= i <= s@.len(),
            views(out@) + lines_rec(s@.skip(i as int), cur@) =~= spec_lines(s@),
        decreases s@.len() - i,
    {
        let ghost rest = s@.skip(i as int);
        let ghost cur0 = cur@;
        proof {
            assert(rest[0] == s@[i as int]);
            assert(rest.skip(1) =~= s@.skip(i as int + 1));
        }
        let b = s[i];
        if b == ('\n' as u8) {
            let line = strip_cr_vec(cur);
            cur = Vec::new();
            proof {
                assert(lines_rec(rest, cur0) =~= seq![strip_cr(cur0)] + lines_rec(
                    rest.skip(1),
                    Seq::empty(),
                ));
                lemma_views_push(out@, line);
                assert(views(out@.push(line)) + lines_rec(rest.skip(1), Seq::empty()) =~= views(
                    out@,
                ) + lines_rec(rest, cur0));
            }
            out.push(line);
        } else {
            proof {
                assert(lines_rec(rest, cur0) =~= lines_rec(rest.skip(1), cur0.push(b)));
            }
            cur.push(b);
        }
        i += 1;
    }
    proof {
        assert(s@.skip(s@.len() as int) =~= Seq::<u8>::empty());
    }
    if cur.len() > 0 {
        let line = strip_cr_vec(cur);
        proof {
            lemma_views_push(out@, line);
            assert(views(out@.push(line)) =~= views(out@) + seq![line@]);
        }
        out.push(line);
    } else {
        proof {
            assert(views(out@) + Seq::<Seq<u8>>::empty() =~= views(out@));
        }
    }
    proof {
        assert(views(out@) =~= spec_lines(s@));
    }
    out
}

} // verus!
