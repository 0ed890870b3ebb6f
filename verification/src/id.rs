//! Decision ids: `dec_<hex-time>_<hex-seq>`.

use vstd::prelude::*;
use crate::external::{duration_nanos, push_char, since_unix_epoch, system_now};

verus! {

/// The lowercase hexadecimal digit for `d` (`d < 16`).
pub open spec fn hex_digit(d: nat) -> char {
    if d < 10 {
        (48 + d) as char
    } else {
        (87 + d) as char
    }
}

/// The last `k` hexadecimal digits of `n`, most significant first.
pub open spec fn hex_fixed(n: nat, k: nat) -> Seq<char>
    decreases k,
{
    if k == 0 {
        Seq::empty()
    } else {
        hex_fixed(n / 16, (k - 1) as nat).push(hex_digit(n % 16))
    }
}

/// How many hexadecimal digits `n` has (zero has one).
pub open spec fn hex_len(n: nat) -> nat
    decreases n,
{
    if n < 16 {
        1
    } else {
        1 + hex_len(n / 16)
    }
}

/// The number of digits `{:0w$x}` prints for `n`.
pub open spec fn hex_width(n: nat, w: nat) -> nat {
    if hex_len(n) < w {
        w
    } else {
        hex_len(n)
    }
}

/// `n` in lowercase hexadecimal, left-padded with zeros to at least `w` digits.
pub open spec fn hex_padded(n: nat, w: nat) -> Seq<char> {
    hex_fixed(n, hex_width(n, w))
}

/// The text of the id made from a time stamp and a sequence number:
/// `dec_`, the time as 16 hex digits, `_`, the sequence number as at least 8 hex digits.
pub open spec fn id_text(ts: nat, seq: nat) -> Seq<char> {
    seq!['d', 'e', 'c', '_'] + hex_padded(ts, 16) + seq!['_'] + hex_padded(seq, 8)
}

pub open spec fn pow16(k: nat) -> nat
    decreases k,
{
    if k == 0 {
        1
    } else {
        16 * pow16((k - 1) as nat)
    }
}

fn hex_digit_char(d: u64) -> (c: char)
    requires
        d < 16,
    ensures
        c == hex_digit(d as nat),
{
    if d < 10 {
        ((48 + d) as u8) as char
    } else {
        ((87 + d) as u8) as char
    }
}

fn push_hex_fixed(out: &mut String, n: u64, k: u64)
    ensures
        final(out)@ == old(out)@ + hex_fixed(n as nat, k as nat),
    decreases k,
{
    if k > 0 {
        push_hex_fixed(out, n / 16, k - 1);
        push_char(out, hex_digit_char(n % 16));
        assert(final(out)@ =~= old(out)@ + hex_fixed(n as nat, k as nat));
    } else {
        assert(final(out)@ =~= old(out)@ + hex_fixed(n as nat, k as nat));
    }
}


proof fn lemma_hex_fixed_len(n: nat, k: nat)
    ensures
        hex_fixed(n, k).len() == k,
    decreases k,
{
    if k > 0 {
        lemma_hex_fixed_len(n / 16, (k - 1) as nat);
    }
}

proof fn lemma_pow16_positive(k: nat)
    ensures
        pow16(k) >= 1,
    decreases k,
{
    if k > 0 {
        lemma_pow16_positive((k - 1) as nat);
    }
}

proof fn lemma_pow16_monotonic(a: nat, b: nat)
    requires
        a <= b,
    ensures
        pow16(a) <= pow16(b),
    decreases b,
{
    if a < b {
        lemma_pow16_monotonic(a, (b - 1) as nat);
        lemma_pow16_positive((b - 1) as nat);
    }
}

/// A number has fewer than `hex_len(n)` hexadecimal digits' worth of value.
proof fn lemma_below_pow16_hex_len(n: nat)
    ensures
        n < pow16(hex_len(n)),
    decreases n,
{
    reveal_with_fuel(pow16, 2);
    if n >= 16 {
        lemma_below_pow16_hex_len(n / 16);
        assert(n < 16 * pow16(hex_len(n / 16))) by (nonlinear_arith)
            requires
                n / 16 < pow16(hex_len(n / 16)),
        ;
    }
}

/// A number below `16^k` (with `k >= 1`) has at most `k` hexadecimal digits.
proof fn lemma_hex_len_at_most(n: nat, k: nat)
    requires
        k >= 1,
        n < pow16(k),
    ensures
        hex_len(n) <= k,
    decreases k,
{
    if n >= 16 {
        if k == 1 {
            reveal_with_fuel(pow16, 2);
        } else {
            lemma_hex_len_at_most(n / 16, (k - 1) as nat);
        }
    }
}

proof fn lemma_u64_hex_len(n: u64)
    ensures
        hex_len(n as nat) <= 16,
{
    assert(pow16(16) == 0x1_0000_0000_0000_0000) by {
        reveal_with_fuel(pow16, 17);
    }
    lemma_hex_len_at_most(n as nat, 16);
}

proof fn lemma_hex_digit_injective(a: nat, b: nat)
    requires
        a < 16,
        b < 16,
        hex_digit(a) == hex_digit(b),
    ensures
        a == b,
{
}

/// Two numbers below `16^k` with the same last `k` hexadecimal digits are equal.
proof fn lemma_hex_fixed_injective(a: nat, b: nat, k: nat)
    requires
        a < pow16(k),
        b < pow16(k),
        hex_fixed(a, k) == hex_fixed(b, k),
    ensures
        a == b,
    decreases k,
{
    if k > 0 {
        let ha = hex_fixed(a, k);
        let hb = hex_fixed(b, k);
        assert(ha.last() == hb.last());
        lemma_hex_digit_injective(a % 16, b % 16);
        assert(ha.drop_last() =~= hex_fixed(a / 16, (k - 1) as nat));
        assert(hb.drop_last() =~= hex_fixed(b / 16, (k - 1) as nat));
        lemma_hex_fixed_injective(a / 16, b / 16, (k - 1) as nat);
    }
}

/// `n` fits in the number of digits that `{:0w$x}` prints for it.
proof fn lemma_below_pow16_width(n: nat, w: nat)
    ensures
        n < pow16(hex_width(n, w)),
{
    lemma_below_pow16_hex_len(n);
    lemma_pow16_monotonic(hex_len(n), hex_width(n, w));
}

/// Ids are injective: two ids made from 64-bit time stamps and sequence numbers
/// are the same text only when both the time stamps and the sequence numbers agree.
pub proof fn lemma_id_text_injective(t1: u64, s1: u64, t2: u64, s2: u64)
    requires
        id_text(t1 as nat, s1 as nat) == id_text(t2 as nat, s2 as nat),
    ensures
        t1 == t2,
        s1 == s2,
{
    let a = id_text(t1 as nat, s1 as nat);
    let b = id_text(t2 as nat, s2 as nat);
    lemma_u64_hex_len(t1);
    lemma_u64_hex_len(t2);
    let ht1 = hex_padded(t1 as nat, 16);
    let ht2 = hex_padded(t2 as nat, 16);
    let hs1 = hex_padded(s1 as nat, 8);
    let hs2 = hex_padded(s2 as nat, 8);
    lemma_hex_fixed_len(t1 as nat, 16);
    lemma_hex_fixed_len(t2 as nat, 16);
    lemma_hex_fixed_len(s1 as nat, hex_width(s1 as nat, 8));
    lemma_hex_fixed_len(s2 as nat, hex_width(s2 as nat, 8));
    assert(a.subrange(4, 20) =~= ht1);
    assert(b.subrange(4, 20) =~= ht2);
    lemma_below_pow16_width(t1 as nat, 16);
    lemma_below_pow16_width(t2 as nat, 16);
    lemma_hex_fixed_injective(t1 as nat, t2 as nat, 16);
    assert(a.subrange(21, a.len() as int) =~= hs1);
    assert(b.subrange(21, b.len() as int) =~= hs2);
    lemma_below_pow16_width(s1 as nat, 8);
    lemma_below_pow16_width(s2 as nat, 8);
    lemma_hex_fixed_injective(s1 as nat, s2 as nat, hex_width(s1 as nat, 8));
}

/// `a` comes before `b` in lexicographic order of their characters (the order in
/// which Rust compares strings, byte by byte of their UTF-8).
pub open spec fn lex_less(a: Seq<char>, b: Seq<char>) -> bool {
    exists|k: int|
        0 <= k <= a.len() && k <= b.len() && #[trigger] a.take(k) == b.take(k) && ((k < a.len()
            && k < b.len() && (a[k] as u32) < (b[k] as u32)) || (k == a.len() && k < b.len()))
}

/// Among numbers below `16^k`, a smaller one has lexicographically smaller last `k`
/// hexadecimal digits, at a position where both have a digit.
proof fn lemma_hex_fixed_ordered(a: nat, b: nat, k: nat) -> (j: int)
    requires
        a < b,
        b < pow16(k),
    ensures
        0 <= j < k,
        hex_fixed(a, k).take(j) == hex_fixed(b, k).take(j),
        (hex_fixed(a, k)[j] as u32) < (hex_fixed(b, k)[j] as u32),
    decreases k,
{
    lemma_hex_fixed_len(a, k);
    lemma_hex_fixed_len(b, k);
    if k == 0 {
        assert(false);
        0
    } else {
        let k1 = (k - 1) as nat;
        let ha = hex_fixed(a, k);
        let hb = hex_fixed(b, k);
        let pa = hex_fixed(a / 16, k1);
        let pb = hex_fixed(b / 16, k1);
        lemma_hex_fixed_len(a / 16, k1);
        lemma_hex_fixed_len(b / 16, k1);
        assert(b / 16 < pow16(k1)) by (nonlinear_arith)
            requires
                b < pow16(k),
                pow16(k) == 16 * pow16(k1),
        ;
        assert(a / 16 < b / 16 || (a / 16 == b / 16 && a % 16 < b % 16)) by (nonlinear_arith)
            requires
                a < b,
        ;
        if a / 16 < b / 16 {
            let j = lemma_hex_fixed_ordered(a / 16, b / 16, k1);
            assert(ha.take(j) =~= pa.take(j));
            assert(hb.take(j) =~= pb.take(j));
            assert(ha[j] == pa[j]);
            assert(hb[j] == pb[j]);
            j
        } else {
            assert(ha.take(k1 as int) =~= pa);
            assert(hb.take(k1 as int) =~= pb);
            k1 as int
        }
    }
}

/// Ids sort by their time stamps: an id made at an earlier time stamp comes before
/// one made at a later time stamp in string order, whatever the sequence numbers.
pub proof fn lemma_id_text_ordered_by_time(t1: u64, s1: u64, t2: u64, s2: u64)
    requires
        t1 < t2,
    ensures
        lex_less(id_text(t1 as nat, s1 as nat), id_text(t2 as nat, s2 as nat)),
{
    let a = id_text(t1 as nat, s1 as nat);
    let b = id_text(t2 as nat, s2 as nat);
    lemma_u64_hex_len(t1);
    lemma_u64_hex_len(t2);
    lemma_hex_fixed_len(t1 as nat, 16);
    lemma_hex_fixed_len(t2 as nat, 16);
    lemma_hex_fixed_len(s1 as nat, hex_width(s1 as nat, 8));
    lemma_hex_fixed_len(s2 as nat, hex_width(s2 as nat, 8));
    assert(pow16(16) == 0x1_0000_0000_0000_0000) by {
        reveal_with_fuel(pow16, 17);
    }
    let ht1 = hex_fixed(t1 as nat, 16);
    let ht2 = hex_fixed(t2 as nat, 16);
    let j = lemma_hex_fixed_ordered(t1 as nat, t2 as nat, 16);
    let k = 4 + j;
    assert(a.subrange(4, 20) =~= ht1);
    assert(b.subrange(4, 20) =~= ht2);
    assert(a[k] == ht1[j]);
    assert(b[k] == ht2[j]);
    assert(a.take(k) =~= seq!['d', 'e', 'c', '_'] + ht1.take(j));
    assert(b.take(k) =~= seq!['d', 'e', 'c', '_'] + ht2.take(j));
    assert(a.take(k) == b.take(k));
}

/// `c` is a lowercase hexadecimal digit, `0`-`9` or `a`-`f`.
pub open spec fn is_lower_hex(c: char) -> bool {
    ('0' <= c && c <= '9') || ('a' <= c && c <= 'f')
}

/// The value of a lowercase hexadecimal digit.
pub open spec fn lower_hex_value(c: char) -> nat {
    if '0' <= c && c <= '9' {
        (c as u32 - '0' as u32) as nat
    } else {
        (c as u32 - 'a' as u32 + 10) as nat
    }
}

/// The number that a string of hexadecimal digits reads as, most significant first.
pub open spec fn hex_value(s: Seq<char>) -> nat
    decreases s.len(),
{
    if s.len() == 0 {
        0
    } else {
        hex_value(s.drop_last()) * 16 + lower_hex_value(s.last())
    }
}

proof fn lemma_hex_fixed_reads_back(n: nat, k: nat)
    requires
        n < pow16(k),
    ensures
        hex_value(hex_fixed(n, k)) == n,
        forall|i: int| 0 <= i < k ==> is_lower_hex(#[trigger] hex_fixed(n, k)[i]),
    decreases k,
{
    lemma_hex_fixed_len(n, k);
    if k > 0 {
        let k1 = (k - 1) as nat;
        assert(n / 16 < pow16(k1)) by (nonlinear_arith)
            requires
                n < pow16(k),
                pow16(k) == 16 * pow16(k1),
        ;
        lemma_hex_fixed_reads_back(n / 16, k1);
        lemma_hex_fixed_len(n / 16, k1);
        let h = hex_fixed(n, k);
        assert(h.drop_last() =~= hex_fixed(n / 16, k1));
        assert(lower_hex_value(hex_digit(n % 16)) == n % 16);
        assert(hex_value(hex_fixed(n / 16, k1)) * 16 + n % 16 == n) by (nonlinear_arith)
            requires
                hex_value(hex_fixed(n / 16, k1)) == n / 16,
        ;
        assert forall|i: int| 0 <= i < k implies is_lower_hex(#[trigger] h[i]) by {
            if i < k1 {
                assert(h[i] == hex_fixed(n / 16, k1)[i]);
            }
        }
    } else {
        reveal_with_fuel(pow16, 1);
    }
}

/// The leading digit of a number written with no extra zeros is `0` only for zero.
proof fn lemma_leading_digit(n: nat)
    requires
        n > 0,
    ensures
        hex_fixed(n, hex_len(n)).len() > 0,
        hex_fixed(n, hex_len(n))[0] != '0',
    decreases n,
{
    lemma_hex_fixed_len(n, hex_len(n));
    if n >= 16 {
        lemma_leading_digit(n / 16);
        lemma_hex_fixed_len(n / 16, hex_len(n / 16));
        assert(hex_fixed(n, hex_len(n))[0] == hex_fixed(n / 16, hex_len(n / 16))[0]);
    }
}

/// What an id says can be read back from it: it is `dec_`, then 16 lowercase hex
/// digits that read as the time stamp, then `_`, then at least 8 lowercase hex digits
/// that read as the sequence number, with no leading zero beyond those 8.
pub proof fn lemma_id_text_reads_back(ts: u64, seq: u64)
    ensures
        ({
            let t = id_text(ts as nat, seq as nat);
            &&& t.len() >= 29
            &&& t.take(4) == seq!['d', 'e', 'c', '_']
            &&& t[20] == '_'
            &&& hex_value(t.subrange(4, 20)) == ts
            &&& hex_value(t.subrange(21, t.len() as int)) == seq
            &&& forall|i: int| 4 <= i < t.len() && i != 20 ==> is_lower_hex(#[trigger] t[i])
            &&& t.len() > 29 ==> t[21] != '0'
        }),
{
    let t = id_text(ts as nat, seq as nat);
    lemma_u64_hex_len(ts);
    lemma_hex_fixed_len(ts as nat, 16);
    let w = hex_width(seq as nat, 8);
    lemma_hex_fixed_len(seq as nat, w);
    let ht = hex_fixed(ts as nat, 16);
    let hs = hex_fixed(seq as nat, w);
    assert(t.subrange(4, 20) =~= ht);
    assert(t.subrange(21, t.len() as int) =~= hs);
    assert(t.take(4) =~= seq!['d', 'e', 'c', '_']);
    lemma_below_pow16_width(ts as nat, 16);
    lemma_below_pow16_width(seq as nat, 8);
    lemma_hex_fixed_reads_back(ts as nat, 16);
    lemma_hex_fixed_reads_back(seq as nat, w);
    assert forall|i: int| 4 <= i < t.len() && i != 20 implies is_lower_hex(#[trigger] t[i]) by {
        if i < 20 {
            assert(t[i] == ht[i - 4]);
        } else {
            assert(t[i] == hs[i - 21]);
        }
    }
    if t.len() > 29 {
        assert(w == hex_len(seq as nat));
        assert(seq > 0);
        lemma_leading_digit(seq as nat);
        assert(t[21] == hs[0]);
    }
}

fn hex_len_of(n: u64) -> (l: u64)
    ensures
        l == hex_len(n as nat),
        l <= 16,
    decreases n,
{
    proof {
        lemma_u64_hex_len(n);
    }
    if n < 16 {
        1
    } else {
        1 + hex_len_of(n / 16)
    }
}

fn push_hex_padded(out: &mut String, n: u64, w: u64)
    ensures
        final(out)@ == old(out)@ + hex_padded(n as nat, w as nat),
{
    let l = hex_len_of(n);
    let width = if l < w {
        w
    } else {
        l
    };
    push_hex_fixed(out, n, width);
}

/// Writes the id for a time stamp and a sequence number, as
/// `format!("dec_{ts:016x}_{seq:08x}")` does.
pub fn format_id(ts: u64, seq: u64) -> (id: String)
    ensures
        id@ == id_text(ts as nat, seq as nat),
{
    let mut id = String::new();
    push_char(&mut id, 'd');
    push_char(&mut id, 'e');
    push_char(&mut id, 'c');
    push_char(&mut id, '_');
    push_hex_padded(&mut id, ts, 16);
    push_char(&mut id, '_');
    push_hex_padded(&mut id, seq, 8);
    assert(id@ =~= id_text(ts as nat, seq as nat));
    id
}


/// The time stamp that an id carries for a reading of the clock: the nanoseconds
/// since the Unix epoch cut to 64 bits, or 0 for a clock before the epoch.
pub open spec fn stamp_of(nanos_since_epoch: Option<u128>) -> nat {
    match nanos_since_epoch {
        Some(n) => (n as u64) as nat,
        None => 0,
    }
}

/// The id for a reading of the clock (nanoseconds since the Unix epoch, `None` when
/// the clock lies before it) and a sequence number.
pub fn id_at(nanos_since_epoch: Option<u128>, seq: u64) -> (id: String)
    ensures
        id@ == id_text(stamp_of(nanos_since_epoch), seq as nat),
{
    let ts: u64 = match nanos_since_epoch {
        Some(n) => n as u64,
        None => 0,
    };
    format_id(ts, seq)
}

/// A fresh, time-prefixed id `dec_<hex-time>_<hex-seq>` for the sequence number `seq`,
/// the time read from the system clock.
///
/// Ids with different sequence numbers always differ; ids with the same sequence
/// number are kept apart only by the clock.
pub fn new_id(seq: u64) -> (id: String)
    ensures
        exists|ts: u64| id@ == id_text(ts as nat, seq as nat),
{
    let now = system_now();
    let nanos = match since_unix_epoch(&now) {
        Some(d) => Some(duration_nanos(&d)),
        None => None,
    };
    let id = id_at(nanos, seq);
    assert(id@ == id_text(stamp_of(nanos) as u64 as nat, seq as nat));
    id
}

} // verus!
