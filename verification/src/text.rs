//! Byte-level text helpers for the line protocol: splitting a line into
//! whitespace-separated tokens, reading a decimal number, and rendering
//! numbers and addresses back to bytes.

use vstd::prelude::*;

use crate::addr::NetAddr;

verus! {

/// ASCII whitespace, as the protocol understands it.
pub open spec fn is_ws(b: u8) -> bool {
    b == 32 || b == 9 || b == 13 || b == 10
}

/// Length of the maximal non-whitespace prefix of `s`.
pub open spec fn token_len(s: Seq<u8>) -> nat
    decreases s.len(),
{
    if s.len() == 0 || is_ws(s[0]) {
        0
    } else {
        1 + token_len(s.skip(1))
    }
}

pub proof fn lemma_token_len_bound(s: Seq<u8>)
    ensures
        token_len(s) <= s.len(),
    decreases s.len(),
{
    if s.len() == 0 || is_ws(s[0]) {
    } else {
        lemma_token_len_bound(s.skip(1));
    }
}

/// The whitespace-separated tokens of `s`, in order.
pub open spec fn tokens_of(s: Seq<u8>) -> Seq<Seq<u8>>
    decreases s.len(),
    via tokens_of_decreases
{
    if s.len() == 0 {
        Seq::empty()
    } else if is_ws(s[0]) {
        tokens_of(s.skip(1))
    } else {
        seq![s.take(token_len(s) as int)] + tokens_of(s.skip(token_len(s) as int))
    }
}

#[via_fn]
proof fn tokens_of_decreases(s: Seq<u8>) {
    if s.len() > 0 && !is_ws(s[0]) {
        lemma_token_len_bound(s);
        assert(token_len(s) >= 1);
    }
}

/// The element-wise views of a sequence of byte vectors.
pub open spec fn views_of(s: Seq<Vec<u8>>) -> Seq<Seq<u8>> {
    Seq::new(s.len(), |i: int| s[i]@)
}

/// A prefix scan that stops at the first whitespace byte (or the end)
/// has found exactly the first token's length.
proof fn lemma_token_len_of_scan(s: Seq<u8>, j: int)
    requires
        0 <= j <= s.len(),
        forall|k: int| 0 <= k < j ==> !is_ws(s[k]),
        j == s.len() || is_ws(s[j]),
    ensures
        token_len(s) == j,
    decreases j,
{
    if j == 0 {
    } else {
        let t = s.skip(1);
        assert(forall|k: int| 0 <= k < j - 1 ==> t[k] == s[k + 1] && !is_ws(t[k]));
        lemma_token_len_of_scan(t, j - 1);
    }
}

/// Executable check matching the `is_ws` predicate.
pub fn is_ws_byte(b: u8) -> (r: bool)
    ensures
        r == is_ws(b),
{
    b == 32 || b == 9 || b == 13 || b == 10
}

/// Splits `line` into its whitespace-separated tokens.
pub fn tokenize(line: &[u8]) -> (r: Vec<Vec<u8>>)
    ensures
        views_of(r@) == tokens_of(line@),
{
    let mut r: Vec<Vec<u8>> = Vec::new();
    let mut i: usize = 0;
    proof {
        assert(line@.skip(0) =~= line@);
        assert(views_of(r@) + tokens_of(line@) =~= tokens_of(line@));
    }
    while i < line.len()
        invariant
            i <= line.len(),
            tokens_of(line@) == views_of(r@) + tokens_of(line@.skip(i as int)),
        decreases line.len() - i,
    {
        if is_ws_byte(line[i]) {
            proof {
                assert(line@.skip(i as int).skip(1) =~= line@.skip(i + 1));
            }
            i = i + 1;
        } else {
            let start = i;
            let mut j = i;
            while j < line.len() && !is_ws_byte(line[j])
                invariant
                    start <= j <= line.len(),
                    forall|k: int| start <= k < j ==> !is_ws(line@[k]),
                decreases line.len() - j,
            {
                j = j + 1;
            }
            let rest = Ghost(line@.skip(start as int));
            proof {
                assert(forall|k: int|
                    0 <= k < j - start ==> rest@[k] == line@[k + start] && !is_ws(rest@[k]));
                if j < line.len() {
                    assert(rest@[j - start] == line@[j as int]);
                }
                lemma_token_len_of_scan(rest@, j - start);
            }
            let mut tok: Vec<u8> = Vec::new();
            let mut m = start;
            while m < j
                invariant
                    start <= m <= j <= line.len(),
                    tok@ == line@.subrange(start as int, m as int),
                decreases j - m,
            {
                tok.push(line[m]);
                proof {
                    assert(tok@ =~= line@.subrange(start as int, m + 1));
                }
                m = m + 1;
            }
            proof {
                assert(rest@.take(j - start) =~= line@.subrange(start as int, j as int));
                assert(rest@.skip(j - start) =~= line@.skip(j as int));
                assert(tokens_of(rest@) == seq![tok@] + tokens_of(line@.skip(j as int)));
            }
            let ghost prev = r@;
            r.push(tok);
            proof {
                assert(views_of(r@) =~= views_of(prev) + seq![tok@]);
            }
            i = j;
        }
    }
    proof {
        assert(line@.skip(line@.len() as int) =~= Seq::<u8>::empty());
        assert(views_of(r@) =~= views_of(r@) + tokens_of(line@.skip(line@.len() as int)));
    }
    r
}

/// An ASCII decimal digit.
pub open spec fn is_digit(b: u8) -> bool {
    48 <= b <= 57
}

/// Every byte of `s` is a decimal digit.
pub open spec fn all_digits(s: Seq<u8>) -> bool {
    forall|i: int| 0 <= i < s.len() ==> is_digit(s[i])
}

/// The number written in `s`, read as base-10 digits.
pub open spec fn dec_value(s: Seq<u8>) -> int
    decreases s.len(),
{
    if s.len() == 0 {
        0
    } else {
        dec_value(s.drop_last()) * 10 + (s.last() - 48)
    }
}

/// Once a prefix of a digit string is already large, the whole string is
/// at least as large.
proof fn lemma_dec_value_prefix_grows(s: Seq<u8>, i: int)
    requires
        0 <= i <= s.len(),
        dec_value(s.take(i)) > 5,
    ensures
        dec_value(s) >= dec_value(s.take(i)),
    decreases s.len() - i,
{
    if i == s.len() {
        assert(s.take(i) =~= s);
    } else {
        let p = s.take(i);
        let q = s.take(i + 1);
        assert(q.drop_last() =~= p);
        assert(dec_value(q) == dec_value(p) * 10 + (s[i] - 48));
        assert(dec_value(p) * 10 >= dec_value(p) + 54) by (nonlinear_arith)
            requires
                dec_value(p) > 5,
        ;
        lemma_dec_value_prefix_grows(s, i + 1);
    }
}

/// Reads a base-10 `u64` from `tok`: all bytes must be digits, at least
/// one, and the value must fit.
pub fn parse_u64(tok: &[u8]) -> (r: Option<u64>)
    ensures
        match r {
            Some(v) => tok@.len() > 0 && all_digits(tok@) && v == dec_value(tok@),
            None => tok@.len() == 0 || !all_digits(tok@) || dec_value(tok@) > u64::MAX,
        },
{
    if tok.len() == 0 {
        return None;
    }
    let mut val: u64 = 0;
    let mut i: usize = 0;
    while i < tok.len()
        invariant
            0 <= i <= tok.len(),
            all_digits(tok@.take(i as int)),
            val == dec_value(tok@.take(i as int)),
        decreases tok.len() - i,
    {
        let b = tok[i];
        if !(48 <= b && b <= 57) {
            return None;
        }
        let d = (b - 48) as u64;
        proof {
            assert(tok@.take(i + 1).drop_last() =~= tok@.take(i as int));
        }
        if val > (u64::MAX - d) / 10 {
            proof {
                assert(val * 10 + d > u64::MAX) by (nonlinear_arith)
                    requires
                        val > (u64::MAX - d) / 10,
                        0 <= d <= 9,
                ;
                assert(dec_value(tok@.take(i + 1)) > u64::MAX);
                lemma_dec_value_prefix_grows(tok@, i + 1);
            }
            return None;
        }
        proof {
            assert(val * 10 + d <= u64::MAX) by (nonlinear_arith)
                requires
                    val <= (u64::MAX - d) / 10,
                    0 <= d <= 9,
            ;
        }
        val = val * 10 + d;
        i = i + 1;
    }
    proof {
        assert(tok@.take(tok@.len() as int) =~= tok@);
    }
    Some(val)
}

/// The base-10 digits of `n`, most significant first.
pub open spec fn dec_repr(n: int) -> Seq<u8>
    decreases n,
{
    if n < 10 {
        seq![(48 + if n >= 0 { n } else { 0 }) as u8]
    } else {
        dec_repr(n / 10).push((48 + n % 10) as u8)
    }
}

/// Renders `n` in decimal.
pub fn render_u64(n: u64) -> (r: Vec<u8>)
    ensures
        r@ == dec_repr(n as int),
{
    let mut rev: Vec<u8> = Vec::new();
    let mut m = n;
    loop
        invariant_except_break
            dec_repr(n as int) == dec_repr(m as int) + rev@.reverse(),
        ensures
            dec_repr(n as int) == rev@.reverse(),
        decreases m,
    {
        let d = (48 + (m % 10) as u8) as u8;
        let next = m / 10;
        proof {
            if next > 0 {
                assert(dec_repr(m as int) == dec_repr(next as int).push(d));
                assert(dec_repr(next as int) + rev@.push(d).reverse() =~= dec_repr(m as int)
                    + rev@.reverse());
            } else {
                assert(dec_repr(m as int) =~= seq![d]);
                assert(seq![d] + rev@.reverse() =~= rev@.push(d).reverse());
            }
        }
        rev.push(d);
        if next == 0 {
            proof {
                assert(dec_repr(n as int) =~= rev@.reverse());
            }
            break;
        }
        m = next;
    }
    let mut r: Vec<u8> = Vec::new();
    let mut k = rev.len();
    while k > 0
        invariant
            0 <= k <= rev.len(),
            r@ =~= rev@.skip(k as int).reverse(),
        decreases k,
    {
        k = k - 1;
        r.push(rev[k]);
        proof {
            assert(rev@.skip(k as int).drop_first() =~= rev@.skip(k + 1));
            assert(rev@.skip(k as int).reverse() =~= rev@.skip(k + 1).reverse().push(
                rev@[k as int]));
        }
    }
    proof {
        assert(rev@.skip(0) =~= rev@);
    }
    r
}

/// Appends `src` to `dst`.
pub fn append_bytes(dst: &mut Vec<u8>, src: &[u8])
    ensures
        final(dst)@ == old(dst)@ + src@,
{
    let mut m: usize = 0;
    while m < src.len()
        invariant
            0 <= m <= src.len(),
            dst@ == old(dst)@ + src@.take(m as int),
        decreases src.len() - m,
    {
        dst.push(src[m]);
        proof {
            assert(old(dst)@ + src@.take(m + 1) =~= (old(dst)@ + src@.take(m as int)).push(
                src@[m as int]));
        }
        m = m + 1;
    }
    proof {
        assert(src@.take(src@.len() as int) =~= src@);
    }
}

/// The position of the first occurrence of `b` in `s`, or `s.len()`
/// when `b` does not occur.
pub open spec fn first_index_of(s: Seq<u8>, b: u8) -> int
    decreases s.len(),
{
    if s.len() == 0 {
        0
    } else if s[0] == b {
        0
    } else {
        1 + first_index_of(s.skip(1), b)
    }
}

proof fn lemma_first_index_of_scan(s: Seq<u8>, b: u8, j: int)
    requires
        0 <= j <= s.len(),
        forall|k: int| 0 <= k < j ==> s[k] != b,
        j == s.len() || s[j] == b,
    ensures
        first_index_of(s, b) == j,
    decreases j,
{
    if j > 0 {
        let t = s.skip(1);
        assert(forall|k: int| 0 <= k < j - 1 ==> t[k] == s[k + 1] && t[k] != b);
        lemma_first_index_of_scan(t, b, j - 1);
    }
}

/// Finds the first occurrence of `b` in `s`, or reports the length.
pub fn find_byte(s: &[u8], b: u8) -> (r: usize)
    ensures
        r == first_index_of(s@, b),
        r <= s@.len(),
{
    let mut j: usize = 0;
    while j < s.len() && s[j] != b
        invariant
            0 <= j <= s.len(),
            forall|k: int| 0 <= k < j ==> s@[k] != b,
        decreases s.len() - j,
    {
        j = j + 1;
    }
    proof {
        lemma_first_index_of_scan(s@, b, j as int);
    }
    j
}

/// A well-formed dotted-decimal octet: digits only, value at most 255.
pub open spec fn octet_ok(s: Seq<u8>) -> bool {
    s.len() > 0 && all_digits(s) && dec_value(s) <= 255
}

/// A well-formed decimal port: digits only, value at most 65535.
pub open spec fn port_ok(s: Seq<u8>) -> bool {
    s.len() > 0 && all_digits(s) && dec_value(s) <= 65535
}

/// Reads `a.b.c.d:port` from `s`: three dots split the octets, a colon
/// splits off the port, each part must be a well-formed decimal.
pub open spec fn parse_addr_spec(s: Seq<u8>) -> Option<NetAddr> {
    let i1 = first_index_of(s, 46);
    let o0 = s.take(i1);
    let r1 = s.skip(i1 + 1);
    let i2 = first_index_of(r1, 46);
    let o1 = r1.take(i2);
    let r2 = r1.skip(i2 + 1);
    let i3 = first_index_of(r2, 46);
    let o2 = r2.take(i3);
    let r3 = r2.skip(i3 + 1);
    let i4 = first_index_of(r3, 58);
    let o3 = r3.take(i4);
    let ps = r3.skip(i4 + 1);
    if i1 < s.len() && i2 < r1.len() && i3 < r2.len() && i4 < r3.len() && octet_ok(o0)
        && octet_ok(o1) && octet_ok(o2) && octet_ok(o3) && port_ok(ps) {
        Some(
            NetAddr {
                ip0: dec_value(o0) as u8,
                ip1: dec_value(o1) as u8,
                ip2: dec_value(o2) as u8,
                ip3: dec_value(o3) as u8,
                port: dec_value(ps) as u16,
            },
        )
    } else {
        None
    }
}

/// Reads one octet, reporting whether it is well formed.
fn parse_octet(part: &[u8]) -> (r: Option<u8>)
    ensures
        match r {
            Some(v) => octet_ok(part@) && v == dec_value(part@),
            None => !octet_ok(part@),
        },
{
    match parse_u64(part) {
        Some(v) => if v <= 255 {
            Some(v as u8)
        } else {
            None
        },
        None => None,
    }
}

/// Parses a socket address written as `a.b.c.d:port`.
pub fn parse_addr(s: &[u8]) -> (r: Option<NetAddr>)
    ensures
        r == parse_addr_spec(s@),
{
    let i1 = find_byte(s, 46);
    if i1 >= s.len() {
        return None;
    }
    let o0 = &s[0..i1];
    let r1 = &s[i1 + 1..s.len()];
    let i2 = find_byte(r1, 46);
    if i2 >= r1.len() {
        return None;
    }
    let o1 = &r1[0..i2];
    let r2 = &r1[i2 + 1..r1.len()];
    let i3 = find_byte(r2, 46);
    if i3 >= r2.len() {
        return None;
    }
    let o2 = &r2[0..i3];
    let r3 = &r2[i3 + 1..r2.len()];
    let i4 = find_byte(r3, 58);
    if i4 >= r3.len() {
        return None;
    }
    let o3 = &r3[0..i4];
    let ps = &r3[i4 + 1..r3.len()];
    let b0 = parse_octet(o0);
    let b1 = parse_octet(o1);
    let b2 = parse_octet(o2);
    let b3 = parse_octet(o3);
    let port = match parse_u64(ps) {
        Some(v) => if v <= 65535 {
            Some(v as u16)
        } else {
            None
        },
        None => None,
    };
    match (b0, b1, b2, b3, port) {
        (Some(a), Some(b), Some(c), Some(d), Some(p)) => Some(
            NetAddr { ip0: a, ip1: b, ip2: c, ip3: d, port: p },
        ),
        _ => None,
    }
}

/// The text form of an address: dotted octets, a colon, the port.
pub open spec fn addr_repr(a: NetAddr) -> Seq<u8> {
    dec_repr(a.ip0 as int) + seq![46u8] + dec_repr(a.ip1 as int) + seq![46u8] + dec_repr(
        a.ip2 as int,
    ) + seq![46u8] + dec_repr(a.ip3 as int) + seq![58u8] + dec_repr(a.port as int)
}

/// Renders an address as `a.b.c.d:port`.
pub fn render_addr(a: &NetAddr) -> (r: Vec<u8>)
    ensures
        r@ == addr_repr(*a),
{
    let mut r: Vec<u8> = Vec::new();
    let p0 = render_u64(a.ip0 as u64);
    append_bytes(&mut r, p0.as_slice());
    r.push(46);
    let p1 = render_u64(a.ip1 as u64);
    append_bytes(&mut r, p1.as_slice());
    r.push(46);
    let p2 = render_u64(a.ip2 as u64);
    append_bytes(&mut r, p2.as_slice());
    r.push(46);
    let p3 = render_u64(a.ip3 as u64);
    append_bytes(&mut r, p3.as_slice());
    r.push(58);
    let pp = render_u64(a.port as u64);
    append_bytes(&mut r, pp.as_slice());
    proof {
        assert(r@ =~= addr_repr(*a));
    }
    r
}

/// Copies a byte string.
pub fn copy_bytes(src: &[u8]) -> (r: Vec<u8>)
    ensures
        r@ == src@,
{
    let mut v: Vec<u8> = Vec::new();
    append_bytes(&mut v, src);
    v
}

/// Compares two byte strings for equality.
pub fn bytes_eq(a: &[u8], b: &[u8]) -> (r: bool)
    ensures
        r == (a@ == b@),
{
    if a.len() != b.len() {
        return false;
    }
    let mut i: usize = 0;
    while i < a.len()
        invariant
            0 <= i <= a.len(),
            a@.len() == b@.len(),
            forall|k: int| 0 <= k < i ==> a@[k] == b@[k],
        decreases a.len() - i,
    {
        if a[i] != b[i] {
            return false;
        }
        i = i + 1;
    }
    proof {
        assert(a@ =~= b@);
    }
    true
}

proof fn lemma_dec_repr_digits(n: int)
    requires
        0 <= n,
    ensures
        dec_repr(n).len() >= 1,
        all_digits(dec_repr(n)),
        dec_value(dec_repr(n)) == n,
    decreases n,
{
    if n < 10 {
        let s1 = dec_repr(n);
        assert(s1 =~= seq![(48 + n) as u8]);
        assert(s1.drop_last() =~= Seq::<u8>::empty());
        assert(s1.last() == 48 + n);
        assert(dec_value(s1) == dec_value(s1.drop_last()) * 10 + (s1.last() - 48));
    } else {
        lemma_dec_repr_digits(n / 10);
        let d = (48 + n % 10) as u8;
        assert(dec_repr(n) == dec_repr(n / 10).push(d));
        assert(dec_repr(n).drop_last() =~= dec_repr(n / 10));
        assert(forall|i: int| 0 <= i < dec_repr(n).len() - 1 ==> dec_repr(n)[i] == dec_repr(
            n / 10,
        )[i]);
        assert(dec_value(dec_repr(n)) == dec_value(dec_repr(n / 10)) * 10 + (d - 48));
        assert((n / 10) * 10 + n % 10 == n);
    }
}

/// `b` first occurs in `x + y` right where `y` begins, provided `x`
/// avoids it and `y` opens with it.
proof fn lemma_first_index_after_prefix(x: Seq<u8>, y: Seq<u8>, b: u8)
    requires
        forall|i: int| 0 <= i < x.len() ==> x[i] != b,
        y.len() > 0,
        y[0] == b,
    ensures
        first_index_of(x + y, b) == x.len(),
    decreases x.len(),
{
    let s = x + y;
    if x.len() == 0 {
        assert(s[0] == y[0]);
    } else {
        assert(s[0] == x[0]);
        assert(s.skip(1) =~= x.skip(1) + y);
        assert(forall|i: int| 0 <= i < x.len() - 1 ==> x.skip(1)[i] == x[i + 1]);
        lemma_first_index_after_prefix(x.skip(1), y, b);
    }
}

/// Splitting `d + sep + rest` at the first occurrence of `sep`, when
/// `d` avoids it, recovers `d` and `rest`.
proof fn lemma_split_at_sep(d: Seq<u8>, sep: u8, rest: Seq<u8>)
    requires
        forall|i: int| 0 <= i < d.len() ==> d[i] != sep,
    ensures
        first_index_of(d + seq![sep] + rest, sep) == d.len(),
        (d + seq![sep] + rest).take(d.len() as int) == d,
        (d + seq![sep] + rest).skip(d.len() as int + 1) == rest,
{
    let s = d + seq![sep] + rest;
    assert(s =~= d + (seq![sep] + rest));
    lemma_first_index_after_prefix(d, seq![sep] + rest, sep);
    assert(s.take(d.len() as int) =~= d);
    assert(s.skip(d.len() as int + 1) =~= rest);
}

/// A non-empty word without whitespace is its own single token.
pub proof fn lemma_single_token(w: Seq<u8>)
    requires
        w.len() > 0,
        forall|i: int| 0 <= i < w.len() ==> !is_ws(w[i]),
    ensures
        tokens_of(w) == seq![w],
{
    lemma_token_len_of_scan(w, w.len() as int);
    assert(w.take(w.len() as int) =~= w);
    assert(w.skip(w.len() as int) =~= Seq::<u8>::empty());
    assert(seq![w] + tokens_of(w.skip(w.len() as int)) =~= seq![w]);
}

/// Two whitespace-free words joined by one space are exactly two
/// tokens.
pub proof fn lemma_two_tokens(w: Seq<u8>, t: Seq<u8>)
    requires
        w.len() > 0,
        t.len() > 0,
        forall|i: int| 0 <= i < w.len() ==> !is_ws(w[i]),
        forall|i: int| 0 <= i < t.len() ==> !is_ws(t[i]),
    ensures
        tokens_of(w + seq![32u8] + t) == seq![w, t],
{
    let s = w + seq![32u8] + t;
    assert(forall|k: int| 0 <= k < w.len() ==> s[k] == w[k] && !is_ws(s[k]));
    assert(s[w.len() as int] == 32);
    lemma_token_len_of_scan(s, w.len() as int);
    assert(s.take(w.len() as int) =~= w);
    let u = s.skip(w.len() as int);
    assert(u =~= seq![32u8] + t);
    assert(tokens_of(s) == seq![w] + tokens_of(u));
    assert(u[0] == 32);
    assert(u.skip(1) =~= t);
    assert(tokens_of(u) == tokens_of(t));
    lemma_single_token(t);
    assert(seq![w] + seq![t] =~= seq![w, t]);
}

/// The text of an address is never empty and holds no whitespace, so
/// it survives tokenizing intact.
pub proof fn lemma_addr_repr_printable(a: NetAddr)
    ensures
        addr_repr(a).len() > 0,
        forall|i: int| 0 <= i < addr_repr(a).len() ==> !is_ws(#[trigger] addr_repr(a)[i]),
{
    let d0 = dec_repr(a.ip0 as int);
    let d1 = dec_repr(a.ip1 as int);
    let d2 = dec_repr(a.ip2 as int);
    let d3 = dec_repr(a.ip3 as int);
    let p = dec_repr(a.port as int);
    lemma_dec_repr_digits(a.ip0 as int);
    lemma_dec_repr_digits(a.ip1 as int);
    lemma_dec_repr_digits(a.ip2 as int);
    lemma_dec_repr_digits(a.ip3 as int);
    lemma_dec_repr_digits(a.port as int);
    let s = addr_repr(a);
    let n0 = d0.len() as int;
    let n1 = d1.len() as int;
    let n2 = d2.len() as int;
    let n3 = d3.len() as int;
    assert forall|i: int| 0 <= i < s.len() implies !is_ws(#[trigger] s[i]) by {
        if i < n0 {
            assert(s[i] == d0[i]);
        } else if i == n0 {
            assert(s[i] == 46);
        } else if i < n0 + 1 + n1 {
            assert(s[i] == d1[i - n0 - 1]);
        } else if i == n0 + 1 + n1 {
            assert(s[i] == 46);
        } else if i < n0 + 1 + n1 + 1 + n2 {
            assert(s[i] == d2[i - n0 - 1 - n1 - 1]);
        } else if i == n0 + 1 + n1 + 1 + n2 {
            assert(s[i] == 46);
        } else if i < n0 + 1 + n1 + 1 + n2 + 1 + n3 {
            assert(s[i] == d3[i - n0 - 1 - n1 - 1 - n2 - 1]);
        } else if i == n0 + 1 + n1 + 1 + n2 + 1 + n3 {
            assert(s[i] == 58);
        } else {
            assert(s[i] == p[i - n0 - 1 - n1 - 1 - n2 - 1 - n3 - 1]);
        }
    }
}

/// Rendering an address and parsing the text back yields the address:
/// what deferral hands out, a redialing candidate reads correctly.
#[verifier::rlimit(100)]
pub proof fn lemma_addr_round_trip(a: NetAddr)
    ensures
        parse_addr_spec(addr_repr(a)) == Some(a),
{
    let d0 = dec_repr(a.ip0 as int);
    let d1 = dec_repr(a.ip1 as int);
    let d2 = dec_repr(a.ip2 as int);
    let d3 = dec_repr(a.ip3 as int);
    let p = dec_repr(a.port as int);
    lemma_dec_repr_digits(a.ip0 as int);
    lemma_dec_repr_digits(a.ip1 as int);
    lemma_dec_repr_digits(a.ip2 as int);
    lemma_dec_repr_digits(a.ip3 as int);
    lemma_dec_repr_digits(a.port as int);
    let s = addr_repr(a);
    let r1 = d1 + seq![46u8] + (d2 + seq![46u8] + (d3 + seq![58u8] + p));
    let r2 = d2 + seq![46u8] + (d3 + seq![58u8] + p);
    let r3 = d3 + seq![58u8] + p;

    assert(forall|i: int| 0 <= i < d0.len() ==> d0[i] != 46 && d0[i] != 58);
    assert(forall|i: int| 0 <= i < d1.len() ==> d1[i] != 46 && d1[i] != 58);
    assert(forall|i: int| 0 <= i < d2.len() ==> d2[i] != 46 && d2[i] != 58);
    assert(forall|i: int| 0 <= i < d3.len() ==> d3[i] != 46 && d3[i] != 58);

    assert(s =~= d0 + seq![46u8] + r1);
    lemma_split_at_sep(d0, 46, r1);
    assert(r1 =~= d1 + seq![46u8] + r2);
    lemma_split_at_sep(d1, 46, r2);
    assert(r2 =~= d2 + seq![46u8] + r3);
    lemma_split_at_sep(d2, 46, r3);
    lemma_split_at_sep(d3, 58, p);
}

} // verus!
