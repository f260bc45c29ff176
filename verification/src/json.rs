//! Byte-level building blocks of the JSON envelopes.
//!
//! The envelopes are written in a canonical form: fixed key order, no
//! whitespace, strings escaped with `\"`, `\\` and `\u00XX` for control
//! bytes only.  For each construct there is an encoder, a spec-level
//! reference parser, and an executable parser proved equal to the
//! reference; the lemmas at the end show that the reference parser
//! accepts exactly what the encoder writes.

use vstd::prelude::*;
use vstd::string::StrSliceExecFns;

verus! {

/// The bytes of an ASCII character sequence, one byte per character.
pub open spec fn ascii_seq(s: Seq<char>) -> Seq<u8> {
    Seq::new(s.len(), |i: int| s[i] as u8)
}

/// Appends the bytes of an ASCII literal.
pub fn append_lit(out: &mut Vec<u8>, lit: &str)
    requires
        vstd::string::is_ascii(lit),
    ensures
        final(out)@ == old(out)@ + ascii_seq(lit@),
{
    broadcast use vstd::string::is_ascii_spec_bytes;

    let b = lit.as_bytes();
    out.extend_from_slice(b);
    assert(final(out)@ =~= old(out)@ + ascii_seq(lit@));
}

/// Whether the bytes of `lit` stand at `pos` in `buf`; on a match, the
/// position just past them.
pub open spec fn match_at(buf: Seq<u8>, pos: int, lit: Seq<u8>) -> Option<int> {
    if 0 <= pos && pos + lit.len() <= buf.len() && buf.subrange(pos, pos + lit.len()) == lit {
        Some(pos + lit.len())
    } else {
        None
    }
}

/// Consumes an ASCII literal at `pos`.
pub fn match_lit(buf: &Vec<u8>, pos: usize, lit: &str) -> (r: Option<usize>)
    requires
        vstd::string::is_ascii(lit),
    ensures
        match r {
            Some(end) => match_at(buf@, pos as int, ascii_seq(lit@)) == Some(end as int),
            None => match_at(buf@, pos as int, ascii_seq(lit@)) is None,
        },
{
    broadcast use vstd::string::is_ascii_spec_bytes;

    let lb = lit.as_bytes_vec();
    if buf.len() < lb.len() || pos > buf.len() - lb.len() {
        return None;
    }
    let blen = buf.len();
    let n = lb.len();
    let mut i: usize = 0;
    while i < n
        invariant
            i <= n,
            n == lb@.len(),
            blen == buf@.len(),
            pos + n <= blen,
            lb@ == ascii_seq(lit@),
            forall|j: int| 0 <= j < i ==> buf@[pos + j] == lb@[j],
        decreases n - i,
    {
        if buf[pos + i] != lb[i] {
            assert(buf@.subrange(pos as int, pos + n) != lb@) by {
                assert(buf@.subrange(pos as int, pos + n)[i as int] != lb@[i as int]);
            }
            return None;
        }
        i = i + 1;
    }
    assert(buf@.subrange(pos as int, pos + n) =~= lb@);
    Some(pos + n)
}

/// A decimal digit byte.
pub open spec fn is_digit(b: u8) -> bool {
    48 <= b <= 57
}

/// The canonical decimal rendering of a natural number.
pub open spec fn dec_rep(n: nat) -> Seq<u8>
    decreases n,
{
    if n < 10 {
        seq![(48 + n) as u8]
    } else {
        dec_rep(n / 10).push((48 + n % 10) as u8)
    }
}

/// Appends the decimal rendering of `n`.
pub fn append_u64(out: &mut Vec<u8>, n: u64)
    ensures
        final(out)@ == old(out)@ + dec_rep(n as nat),
    decreases n,
{
    if n < 10 {
        out.push(48 + n as u8);
        assert(final(out)@ =~= old(out)@ + dec_rep(n as nat));
    } else {
        append_u64(out, n / 10);
        out.push(48 + (n % 10) as u8);
        assert(final(out)@ =~= old(out)@ + dec_rep(n as nat));
    }
}

/// Ten to the `k`.
pub open spec fn pow10(k: nat) -> nat
    decreases k,
{
    if k == 0 {
        1
    } else {
        10 * pow10((k - 1) as nat)
    }
}

/// The position of the first non-digit at or after `pos`.
pub open spec fn digits_end(buf: Seq<u8>, pos: int) -> int
    decreases buf.len() - pos,
{
    if pos < 0 || pos >= buf.len() || !is_digit(buf[pos]) {
        pos
    } else {
        digits_end(buf, pos + 1)
    }
}

/// The value of the digit run `buf[pos..end]`.
pub open spec fn digits_val(buf: Seq<u8>, pos: int, end: int) -> nat
    decreases end - pos,
{
    if pos >= end {
        0
    } else {
        digits_val(buf, pos, end - 1) * 10 + (buf[end - 1] - 48) as nat
    }
}

/// The reference parser for a canonical `u64`: a run of at most 19 digits
/// with no leading zero.
pub open spec fn spec_parse_u64(buf: Seq<u8>, pos: int) -> Option<(u64, int)> {
    let end = digits_end(buf, pos);
    if end == pos || end - pos > 19 || (buf[pos] == 48 && end > pos + 1) {
        None
    } else {
        Some((digits_val(buf, pos, end) as u64, end))
    }
}

proof fn lemma_digits_end_bounds(buf: Seq<u8>, pos: int)
    requires
        0 <= pos <= buf.len(),
    ensures
        pos <= digits_end(buf, pos) <= buf.len(),
        forall|j: int| pos <= j < digits_end(buf, pos) ==> is_digit(#[trigger] buf[j]),
        digits_end(buf, pos) == buf.len() || !is_digit(buf[digits_end(buf, pos)]),
    decreases buf.len() - pos,
{
    if pos < buf.len() && is_digit(buf[pos]) {
        lemma_digits_end_bounds(buf, pos + 1);
    }
}

proof fn lemma_digits_val_bound(buf: Seq<u8>, pos: int, end: int)
    requires
        pos <= end,
        forall|j: int| pos <= j < end ==> is_digit(#[trigger] buf[j]),
    ensures
        digits_val(buf, pos, end) < pow10((end - pos) as nat),
    decreases end - pos,
{
    if pos < end {
        lemma_digits_val_bound(buf, pos, end - 1);
        assert(is_digit(buf[end - 1]));
        assert(digits_val(buf, pos, end - 1) <= pow10((end - pos - 1) as nat) - 1);
        assert(digits_val(buf, pos, end - 1) * 10 <= (pow10((end - pos - 1) as nat) - 1) * 10)
            by (nonlinear_arith)
            requires
                digits_val(buf, pos, end - 1) <= pow10((end - pos - 1) as nat) - 1,
        ;
    }
}

proof fn lemma_pow10_19()
    ensures
        pow10(19) == 10_000_000_000_000_000_000,
{
    reveal_with_fuel(pow10, 21);
}

/// Parses a canonical `u64` at `pos`, as the reference parser does.
pub fn parse_u64(buf: &Vec<u8>, pos: usize) -> (r: Option<(u64, usize)>)
    ensures
        match r {
            Some(p) => spec_parse_u64(buf@, pos as int) == Some((p.0, p.1 as int)) && pos < p.1
                <= buf@.len(),
            None => spec_parse_u64(buf@, pos as int) is None,
        },
{
    proof {
        if pos <= buf@.len() {
            lemma_digits_end_bounds(buf@, pos as int);
        }
    }
    if pos >= buf.len() || buf[pos] < 48 || buf[pos] > 57 {
        return None;
    }
    let ghost end = digits_end(buf@, pos as int);
    if buf[pos] == 48 {
        // A lone zero is canonical; a longer run with a leading zero is not.
        if pos + 1 < buf.len() && buf[pos + 1] >= 48 && buf[pos + 1] <= 57 {
            return None;
        }
        assert(digits_end(buf@, pos + 1) == pos + 1);
        assert(end == pos + 1);
        assert(digits_val(buf@, pos as int, pos + 1) == digits_val(buf@, pos as int, pos as int)
            * 10 + (buf@[pos as int] - 48) as nat);
        return Some((0, pos + 1));
    }
    let mut i: usize = pos;
    let mut acc: u64 = 0;
    while i < buf.len() && buf[i] >= 48 && buf[i] <= 57
        invariant
            pos <= i <= buf@.len(),
            pos < buf@.len(),
            is_digit(buf@[pos as int]),
            end == digits_end(buf@, pos as int),
            pos <= end <= buf@.len(),
            forall|j: int| pos <= j < end ==> is_digit(#[trigger] buf@[j]),
            end == buf@.len() || !is_digit(buf@[end]),
            i <= end,
            acc == digits_val(buf@, pos as int, i as int),
            i - pos <= 19,
        decreases buf@.len() - i,
    {
        assert(i < end);
        if i - pos == 19 {
            // A twentieth digit: the run is longer than the canonical maximum.
            assert(end - pos > 19) by {
                assert(is_digit(buf@[i as int]));
            }
            return None;
        }
        proof {
            lemma_digits_val_bound(buf@, pos as int, i as int);
            lemma_pow10_19();
            assert(pow10((i - pos) as nat) <= pow10(18)) by {
                lemma_pow10_monotone((i - pos) as nat, 18);
            }
            assert(pow10(18) * 10 == pow10(19));
        }
        let d: u64 = (buf[i] - 48) as u64;
        assert(acc * 10 + d < 10_000_000_000_000_000_000) by (nonlinear_arith)
            requires
                acc < pow10(18),
                d < 10,
                pow10(18) * 10 == pow10(19),
                pow10(19) == 10_000_000_000_000_000_000,
        ;
        acc = acc * 10 + d;
        i = i + 1;
    }
    assert(i == end);
    Some((acc, i))
}

proof fn lemma_pow10_pos(k: nat)
    ensures
        pow10(k) >= 1,
    decreases k,
{
    if k > 0 {
        lemma_pow10_pos((k - 1) as nat);
    }
}

proof fn lemma_pow10_monotone(a: nat, b: nat)
    requires
        a <= b,
    ensures
        pow10(a) <= pow10(b),
        pow10(a) >= 1,
    decreases b,
{
    lemma_pow10_pos(a);
    if a < b {
        lemma_pow10_monotone(a, (b - 1) as nat);
        assert(pow10(b) == 10 * pow10((b - 1) as nat));
    }
}

/// The run `dec_rep(n)` placed at `pos`, followed by a non-digit or the
/// buffer's end, parses back to exactly `n`.
pub proof fn lemma_parse_dec_rep(buf: Seq<u8>, pos: int, n: u64)
    requires
        0 <= pos,
        n < 10_000_000_000_000_000_000,
        pos + dec_rep(n as nat).len() <= buf.len(),
        buf.subrange(pos, pos + dec_rep(n as nat).len()) == dec_rep(n as nat),
        pos + dec_rep(n as nat).len() == buf.len() || !is_digit(
            buf[pos + dec_rep(n as nat).len()],
        ),
    ensures
        spec_parse_u64(buf, pos) == Some((n, pos + dec_rep(n as nat).len())),
{
    let rep = dec_rep(n as nat);
    let end = pos + rep.len();
    lemma_dec_rep_digits(n as nat);
    lemma_pow10_19();
    lemma_dec_rep_len(n as nat, 19);
    assert forall|j: int| pos <= j < end implies is_digit(#[trigger] buf[j]) by {
        assert(buf[j] == rep[j - pos]);
    }
    lemma_digits_end_run(buf, pos, end);
    assert(rep[0] == buf[pos]);
    lemma_digits_val_of_rep(buf, pos, n);
    if n == 0 {
        assert(rep.len() == 1);
    } else {
        assert(buf[pos] != 48);
    }
}

/// Every byte of `dec_rep(n)` is a digit, and the first is `0` only for zero.
proof fn lemma_dec_rep_digits(n: nat)
    ensures
        dec_rep(n).len() >= 1,
        forall|i: int| 0 <= i < dec_rep(n).len() ==> is_digit(#[trigger] dec_rep(n)[i]),
        dec_rep(n)[0] == 48 ==> n == 0,
        n == 0 ==> dec_rep(n).len() == 1,
    decreases n,
{
    if n >= 10 {
        lemma_dec_rep_digits(n / 10);
        assert forall|i: int| 0 <= i < dec_rep(n).len() implies is_digit(
            #[trigger] dec_rep(n)[i],
        ) by {
            if i < dec_rep(n / 10).len() {
                assert(dec_rep(n)[i] == dec_rep(n / 10)[i]);
            }
        }
        assert(n / 10 >= 1);
    }
}

/// `dec_rep(n)` has at most `k` digits when `n < pow10(k)`.
proof fn lemma_dec_rep_len(n: nat, k: nat)
    requires
        n < pow10(k),
        k >= 1,
    ensures
        dec_rep(n).len() <= k,
    decreases k,
{
    if n >= 10 {
        assert(k >= 2) by {
            reveal_with_fuel(pow10, 2);
        }
        assert(n / 10 < pow10((k - 1) as nat)) by (nonlinear_arith)
            requires
                n < pow10(k),
                pow10(k) == 10 * pow10((k - 1) as nat),
                n >= 10,
        ;
        lemma_dec_rep_len(n / 10, (k - 1) as nat);
    }
}

/// A run of digits over `[pos, end)` with a non-digit (or the end) at `end`
/// is exactly what `digits_end` finds.
proof fn lemma_digits_end_run(buf: Seq<u8>, pos: int, end: int)
    requires
        0 <= pos <= end <= buf.len(),
        forall|j: int| pos <= j < end ==> is_digit(#[trigger] buf[j]),
        end == buf.len() || !is_digit(buf[end]),
    ensures
        digits_end(buf, pos) == end,
    decreases end - pos,
{
    if pos < end {
        lemma_digits_end_run(buf, pos + 1, end);
    }
}

/// The lowercase hex digit for a value below 16.
pub open spec fn hex_digit(n: nat) -> u8 {
    if n < 10 {
        (48 + n) as u8
    } else {
        (87 + n) as u8
    }
}

/// A lowercase hex digit byte.
pub open spec fn is_hex_lc(b: u8) -> bool {
    is_digit(b) || (97 <= b <= 102)
}

/// The value of a lowercase hex digit byte.
pub open spec fn hex_val(b: u8) -> nat {
    if is_digit(b) {
        (b - 48) as nat
    } else {
        (b - 87) as nat
    }
}

/// The escaped form of one byte inside a JSON string: `\"` and `\\` for the
/// quote and the backslash, `\u00XX` for control bytes, the byte itself
/// otherwise.
pub open spec fn esc_byte(b: u8) -> Seq<u8> {
    if b == 34 {
        seq![92u8, 34u8]
    } else if b == 92 {
        seq![92u8, 92u8]
    } else if b < 32 {
        seq![92u8, 117u8, 48u8, 48u8, hex_digit((b / 16) as nat), hex_digit((b % 16) as nat)]
    } else {
        seq![b]
    }
}

/// The escaped form of a byte sequence.
pub open spec fn esc_bytes(s: Seq<u8>) -> Seq<u8>
    decreases s.len(),
{
    if s.len() == 0 {
        Seq::empty()
    } else {
        esc_byte(s[0]) + esc_bytes(s.drop_first())
    }
}

/// Escaping distributes over concatenation.
pub proof fn lemma_esc_bytes_concat(a: Seq<u8>, b: Seq<u8>)
    ensures
        esc_bytes(a + b) == esc_bytes(a) + esc_bytes(b),
    decreases a.len(),
{
    if a.len() == 0 {
        assert(a + b =~= b);
        assert(esc_bytes(a) + esc_bytes(b) =~= esc_bytes(b));
    } else {
        assert((a + b).drop_first() =~= a.drop_first() + b);
        lemma_esc_bytes_concat(a.drop_first(), b);
        assert(esc_byte(a[0]) + (esc_bytes(a.drop_first()) + esc_bytes(b)) =~= (esc_byte(a[0])
            + esc_bytes(a.drop_first())) + esc_bytes(b));
    }
}

proof fn lemma_esc_bytes_take_step(s: Seq<u8>, i: int)
    requires
        0 <= i < s.len(),
    ensures
        esc_bytes(s.take(i + 1)) == esc_bytes(s.take(i)) + esc_byte(s[i]),
{
    assert(s.take(i + 1) =~= s.take(i) + seq![s[i]]);
    lemma_esc_bytes_concat(s.take(i), seq![s[i]]);
    assert(seq![s[i]].len() == 1);
    assert(seq![s[i]].drop_first() =~= Seq::<u8>::empty());
    assert(esc_bytes(seq![s[i]]) == esc_byte(s[i]) + esc_bytes(seq![s[i]].drop_first()));
    assert(esc_byte(s[i]) + esc_bytes(Seq::<u8>::empty()) =~= esc_byte(s[i]));
}

/// Appends the escaped form of `data`.
pub fn append_escaped(out: &mut Vec<u8>, data: &Vec<u8>)
    ensures
        final(out)@ == old(out)@ + esc_bytes(data@),
{
    let n = data.len();
    let mut i: usize = 0;
    while i < n
        invariant
            i <= n,
            n == data@.len(),
            out@ == old(out)@ + esc_bytes(data@.take(i as int)),
        decreases n - i,
    {
        let b = data[i];
        if b == 34 {
            out.push(92);
            out.push(34);
        } else if b == 92 {
            out.push(92);
            out.push(92);
        } else if b < 32 {
            out.push(92);
            out.push(117);
            out.push(48);
            out.push(48);
            let hi = b / 16;
            let lo = b % 16;
            out.push(if hi < 10 { 48 + hi } else { 87 + hi });
            out.push(if lo < 10 { 48 + lo } else { 87 + lo });
        } else {
            out.push(b);
        }
        proof {
            lemma_esc_bytes_take_step(data@, i as int);
            assert(out@ =~= old(out)@ + esc_bytes(data@.take(i + 1)));
        }
        i = i + 1;
    }
    assert(data@.take(n as int) =~= data@);
}

/// Six bytes bound the escaped form of any byte.
pub proof fn lemma_esc_bytes_len(s: Seq<u8>)
    ensures
        esc_bytes(s).len() <= 6 * s.len(),
    decreases s.len(),
{
    if s.len() > 0 {
        lemma_esc_bytes_len(s.drop_first());
    }
}

/// Twenty digits render any 64-bit number.
pub proof fn lemma_dec_rep_len_u64(n: u64)
    ensures
        dec_rep(n as nat).len() <= 20,
{
    assert(pow10(20) == 100_000_000_000_000_000_000) by {
        reveal_with_fuel(pow10, 22);
    }
    lemma_dec_rep_len(n as nat, 20);
}

/// The reference parser for a JSON string body: bytes up to an unescaped
/// closing quote, accepting exactly the escapes the encoder writes.
pub open spec fn spec_parse_jstring(buf: Seq<u8>, pos: int) -> Option<(Seq<u8>, int)>
    decreases buf.len() - pos,
{
    if pos < 0 || pos >= buf.len() {
        None
    } else if buf[pos] == 34 {
        Some((Seq::empty(), pos + 1))
    } else if buf[pos] == 92 {
        if pos + 1 >= buf.len() {
            None
        } else if buf[pos + 1] == 34 || buf[pos + 1] == 92 {
            match spec_parse_jstring(buf, pos + 2) {
                Some((s, end)) => Some((seq![buf[pos + 1]] + s, end)),
                None => None,
            }
        } else if buf[pos + 1] == 117 {
            if pos + 6 > buf.len() {
                None
            } else if buf[pos + 2] == 48 && buf[pos + 3] == 48 && is_hex_lc(buf[pos + 4])
                && is_hex_lc(buf[pos + 5]) && hex_val(buf[pos + 4]) * 16 + hex_val(buf[pos + 5])
                < 32 {
                match spec_parse_jstring(buf, pos + 6) {
                    Some((s, end)) => Some(
                        (seq![(hex_val(buf[pos + 4]) * 16 + hex_val(buf[pos + 5])) as u8] + s, end),
                    ),
                    None => None,
                }
            } else {
                None
            }
        } else {
            None
        }
    } else if buf[pos] >= 32 {
        match spec_parse_jstring(buf, pos + 1) {
            Some((s, end)) => Some((seq![buf[pos]] + s, end)),
            None => None,
        }
    } else {
        None
    }
}

/// Parses a JSON string body at `pos`, as the reference parser does.
pub fn parse_jstring(buf: &Vec<u8>, pos: usize) -> (r: Option<(Vec<u8>, usize)>)
    ensures
        match r {
            Some(p) => spec_parse_jstring(buf@, pos as int) == Some((p.0@, p.1 as int)) && pos
                < p.1 <= buf@.len(),
            None => spec_parse_jstring(buf@, pos as int) is None,
        },
{
    let blen = buf.len();
    if pos >= blen {
        return None;
    }
    let mut cur: usize = pos;
    let mut acc: Vec<u8> = Vec::new();
    loop
        invariant
            pos <= cur,
            cur <= blen,
            blen == buf@.len(),
            spec_parse_jstring(buf@, pos as int) == (match spec_parse_jstring(buf@, cur as int) {
                Some((s, end)) => Some((acc@ + s, end)),
                None => None::<(Seq<u8>, int)>,
            }),
        decreases blen - cur,
    {
        if cur >= blen {
            return None;
        }
        let b = buf[cur];
        if b == 34 {
            assert(spec_parse_jstring(buf@, cur as int) == Some(
                (Seq::<u8>::empty(), cur + 1 as int),
            ));
            assert(acc@ + Seq::<u8>::empty() =~= acc@);
            return Some((acc, cur + 1));
        } else if b == 92 {
            if cur + 1 >= blen {
                return None;
            }
            let e = buf[cur + 1];
            if e == 34 || e == 92 {
                acc.push(e);
                proof {
                    reassociate_prefix(acc@, buf@, cur as int);
                }
                cur = cur + 2;
            } else if e == 117 {
                if blen - cur < 6 {
                    return None;
                }
                let h1 = buf[cur + 4];
                let h2 = buf[cur + 5];
                let ok1 = (48 <= h1 && h1 <= 57) || (97 <= h1 && h1 <= 102);
                let ok2 = (48 <= h2 && h2 <= 57) || (97 <= h2 && h2 <= 102);
                if buf[cur + 2] != 48 || buf[cur + 3] != 48 || !ok1 || !ok2 {
                    return None;
                }
                let v1: u8 = if h1 <= 57 { h1 - 48 } else { h1 - 87 };
                let v2: u8 = if h2 <= 57 { h2 - 48 } else { h2 - 87 };
                let v: u8 = v1 * 16 + v2;
                if v >= 32 {
                    return None;
                }
                acc.push(v);
                proof {
                    reassociate_hex(acc@, buf@, cur as int);
                }
                cur = cur + 6;
            } else {
                return None;
            }
        } else if b >= 32 {
            acc.push(b);
            proof {
                reassociate_raw(acc@, buf@, cur as int);
            }
            cur = cur + 1;
        } else {
            return None;
        }
    }
}

proof fn reassociate_prefix(acc: Seq<u8>, buf: Seq<u8>, cur: int)
    requires
        acc.len() >= 1,
        0 <= cur,
        cur + 1 < buf.len(),
        buf[cur] == 92,
        buf[cur + 1] == 34 || buf[cur + 1] == 92,
        acc[acc.len() - 1] == buf[cur + 1],
    ensures
        (match spec_parse_jstring(buf, cur) {
            Some((s, end)) => Some((acc.drop_last() + s, end)),
            None => None::<(Seq<u8>, int)>,
        }) == (match spec_parse_jstring(buf, cur + 2) {
            Some((s, end)) => Some((acc + s, end)),
            None => None::<(Seq<u8>, int)>,
        }),
{
    match spec_parse_jstring(buf, cur + 2) {
        Some((s, end)) => {
            assert(spec_parse_jstring(buf, cur) == Some((seq![buf[cur + 1]] + s, end)));
            assert(acc.drop_last() + (seq![buf[cur + 1]] + s) =~= acc + s);
        },
        None => {},
    }
}

proof fn reassociate_hex(acc: Seq<u8>, buf: Seq<u8>, cur: int)
    requires
        acc.len() >= 1,
        0 <= cur,
        cur + 6 <= buf.len(),
        buf[cur] == 92,
        buf[cur + 1] == 117,
        buf[cur + 2] == 48,
        buf[cur + 3] == 48,
        is_hex_lc(buf[cur + 4]),
        is_hex_lc(buf[cur + 5]),
        hex_val(buf[cur + 4]) * 16 + hex_val(buf[cur + 5]) < 32,
        acc[acc.len() - 1] == (hex_val(buf[cur + 4]) * 16 + hex_val(buf[cur + 5])) as u8,
    ensures
        (match spec_parse_jstring(buf, cur) {
            Some((s, end)) => Some((acc.drop_last() + s, end)),
            None => None::<(Seq<u8>, int)>,
        }) == (match spec_parse_jstring(buf, cur + 6) {
            Some((s, end)) => Some((acc + s, end)),
            None => None::<(Seq<u8>, int)>,
        }),
{
    let v = (hex_val(buf[cur + 4]) * 16 + hex_val(buf[cur + 5])) as u8;
    match spec_parse_jstring(buf, cur + 6) {
        Some((s, end)) => {
            assert(spec_parse_jstring(buf, cur) == Some((seq![v] + s, end)));
            assert(acc.drop_last() + (seq![v] + s) =~= acc + s);
        },
        None => {},
    }
}

proof fn reassociate_raw(acc: Seq<u8>, buf: Seq<u8>, cur: int)
    requires
        acc.len() >= 1,
        0 <= cur < buf.len(),
        buf[cur] != 34,
        buf[cur] != 92,
        buf[cur] >= 32,
        acc[acc.len() - 1] == buf[cur],
    ensures
        (match spec_parse_jstring(buf, cur) {
            Some((s, end)) => Some((acc.drop_last() + s, end)),
            None => None::<(Seq<u8>, int)>,
        }) == (match spec_parse_jstring(buf, cur + 1) {
            Some((s, end)) => Some((acc + s, end)),
            None => None::<(Seq<u8>, int)>,
        }),
{
    match spec_parse_jstring(buf, cur + 1) {
        Some((s, end)) => {
            assert(spec_parse_jstring(buf, cur) == Some((seq![buf[cur]] + s, end)));
            assert(acc.drop_last() + (seq![buf[cur]] + s) =~= acc + s);
        },
        None => {},
    }
}

/// The escaped form of `s` placed at `pos` and followed by a quote parses
/// back to exactly `s`.
pub proof fn lemma_parse_esc(buf: Seq<u8>, pos: int, s: Seq<u8>)
    requires
        0 <= pos,
        pos + esc_bytes(s).len() + 1 <= buf.len(),
        buf.subrange(pos, pos + esc_bytes(s).len()) == esc_bytes(s),
        buf[pos + esc_bytes(s).len()] == 34,
    ensures
        spec_parse_jstring(buf, pos) == Some((s, pos + esc_bytes(s).len() + 1)),
    decreases s.len(),
{
    if s.len() == 0 {
        assert(buf[pos] == 34);
    } else {
        let e0 = esc_byte(s[0]);
        let rest = esc_bytes(s.drop_first());
        assert(esc_bytes(s) == e0 + rest);
        let sub = buf.subrange(pos, pos + esc_bytes(s).len());
        assert forall|j: int| 0 <= j < e0.len() implies buf[pos + j] == e0[j] by {
            assert(sub[j] == esc_bytes(s)[j]);
            assert(esc_bytes(s)[j] == e0[j]);
        }
        assert(buf.subrange(pos + e0.len(), pos + e0.len() + rest.len()) =~= rest) by {
            assert forall|j: int| 0 <= j < rest.len() implies buf.subrange(
                pos + e0.len(),
                pos + e0.len() + rest.len(),
            )[j] == rest[j] by {
                assert(buf[pos + e0.len() + j] == sub[e0.len() + j]);
                assert(sub[e0.len() + j] == esc_bytes(s)[e0.len() + j]);
                assert(esc_bytes(s)[e0.len() + j] == rest[j]);
            }
        }
        lemma_parse_esc(buf, pos + e0.len(), s.drop_first());
        assert(buf[pos + 0] == e0[0]);
        let b = s[0];
        if b == 34 {
            assert(buf[pos] == 92 && buf[pos + 1] == 34);
            assert(seq![buf[pos + 1]] + s.drop_first() =~= s);
        } else if b == 92 {
            assert(buf[pos] == 92 && buf[pos + 1] == 92);
            assert(seq![buf[pos + 1]] + s.drop_first() =~= s);
        } else if b < 32 {
            assert(buf[pos] == 92 && buf[pos + 1] == 117 && buf[pos + 2] == 48 && buf[pos + 3]
                == 48);
            assert(buf[pos + 4] == hex_digit((b / 16) as nat));
            assert(buf[pos + 5] == hex_digit((b % 16) as nat));
            lemma_hex_digit_val((b / 16) as nat);
            lemma_hex_digit_val((b % 16) as nat);
            assert(hex_val(buf[pos + 4]) * 16 + hex_val(buf[pos + 5]) == (b / 16) * 16 + b % 16);
            assert((b / 16) * 16 + b % 16 == b);
            assert(seq![(hex_val(buf[pos + 4]) * 16 + hex_val(buf[pos + 5])) as u8]
                + s.drop_first() =~= s);
        } else {
            assert(buf[pos] == b);
            assert(seq![buf[pos]] + s.drop_first() =~= s);
        }
    }
}

proof fn lemma_hex_digit_val(n: nat)
    requires
        n < 16,
    ensures
        is_hex_lc(hex_digit(n)),
        hex_val(hex_digit(n)) == n,
{
}

/// A sequence of bytes below 128 is valid UTF-8, and decodes to the
/// character sequence that casts each byte.
pub proof fn lemma_ascii_bytes(bytes: Seq<u8>)
    requires
        forall|i: int| 0 <= i < bytes.len() ==> #[trigger] bytes[i] < 128,
    ensures
        vstd::utf8::valid_utf8(bytes),
        vstd::utf8::decode_utf8(bytes) == Seq::new(bytes.len(), |i: int| bytes[i] as char),
        vstd::utf8::encode_utf8(Seq::new(bytes.len(), |i: int| bytes[i] as char)) == bytes,
{
    let chars = Seq::new(bytes.len(), |i: int| bytes[i] as char);
    assert(vstd::utf8::is_ascii_chars(chars)) by {
        assert forall|i: int| 0 <= i < chars.len() implies '\0' <= #[trigger] chars[i]
            <= '\u{7f}' by {
            assert(bytes[i] < 128);
        }
    }
    vstd::utf8::is_ascii_chars_encode_utf8(chars);
    assert(vstd::utf8::encode_utf8(chars) =~= bytes);
    vstd::utf8::encode_utf8_valid_utf8(chars);
    vstd::utf8::encode_utf8_decode_utf8(chars);
}

/// The decimal rendering is never empty and is digits throughout.
pub proof fn lemma_dec_rep_first_digit(n: nat)
    ensures
        dec_rep(n).len() >= 1,
        is_digit(dec_rep(n)[0]),
        forall|i: int| 0 <= i < dec_rep(n).len() ==> is_digit(#[trigger] dec_rep(n)[i]),
{
    lemma_dec_rep_digits(n);
}

/// The value of the digit run `dec_rep(n)` placed at `pos` is `n`.
proof fn lemma_digits_val_of_rep(buf: Seq<u8>, pos: int, n: u64)
    requires
        0 <= pos,
        pos + dec_rep(n as nat).len() <= buf.len(),
        buf.subrange(pos, pos + dec_rep(n as nat).len()) == dec_rep(n as nat),
    ensures
        digits_val(buf, pos, pos + dec_rep(n as nat).len()) == n,
    decreases n,
{
    let rep = dec_rep(n as nat);
    let end = pos + rep.len();
    if n < 10 {
        assert(buf.subrange(pos, end)[0] == rep[0]);
        assert(buf[pos] == (48 + n) as u8);
        assert(digits_val(buf, pos, end) == digits_val(buf, pos, end - 1) * 10 + (buf[end - 1]
            - 48) as nat);
    } else {
        let rep10 = dec_rep((n / 10) as nat);
        assert(rep == rep10.push((48 + n % 10) as u8));
        assert(buf.subrange(pos, pos + rep10.len()) =~= rep10) by {
            assert forall|j: int| 0 <= j < rep10.len() implies buf.subrange(
                pos,
                pos + rep10.len(),
            )[j] == rep10[j] by {
                assert(buf[pos + j] == rep[j]);
                assert(rep[j] == rep10[j]);
            }
        }
        lemma_digits_val_of_rep(buf, pos, n / 10);
        assert(end - 1 == pos + rep10.len());
        assert(buf.subrange(pos, end)[rep.len() - 1] == rep[rep.len() - 1]);
        assert(buf[end - 1] == rep[rep.len() - 1]);
        assert(rep[rep.len() - 1] == (48 + n % 10) as u8);
        assert(digits_val(buf, pos, end) == digits_val(buf, pos, end - 1) * 10 + (buf[end - 1]
            - 48) as nat);
    }
}

} // verus!
