//! The text form of a persisted table: a header line
//! `nchain: <M>, ncolumns: <C>, redu:<r>` followed by one line
//! `<start>, <end>` per chain, every number in canonical decimal and every
//! line ended by a newline.
use crate::table::{Chain, Table};
use vstd::prelude::*;

verus! {

/// `c` is an ASCII decimal digit.
pub open spec fn is_digit(c: u8) -> bool {
    48 <= c <= 57
}

/// The canonical decimal form of `n`: no sign, no leading zero.
pub open spec fn dec(n: nat) -> Seq<u8>
    decreases n,
{
    if n < 10 {
        seq![(48 + n) as u8]
    } else {
        dec(n / 10).push((48 + n % 10) as u8)
    }
}

/// The number written by the decimal digits `s`.
pub open spec fn digits_value(s: Seq<u8>) -> int
    decreases s.len(),
{
    if s.len() == 0 {
        0
    } else {
        digits_value(s.drop_last()) * 10 + (s.last() as int - 48)
    }
}

/// Every byte of `s` is a decimal digit.
pub open spec fn all_digits(s: Seq<u8>) -> bool {
    forall|i: int| 0 <= i < s.len() ==> is_digit(#[trigger] s[i])
}

/// `nchain: `
#[verifier::opaque]
pub open spec fn nchain_tag() -> Seq<u8> {
    seq![110u8, 99, 104, 97, 105, 110, 58, 32]
}

/// `, ncolumns: `
#[verifier::opaque]
pub open spec fn ncolumns_tag() -> Seq<u8> {
    seq![44u8, 32, 110, 99, 111, 108, 117, 109, 110, 115, 58, 32]
}

/// `, redu:`
#[verifier::opaque]
pub open spec fn redu_tag() -> Seq<u8> {
    seq![44u8, 32, 114, 101, 100, 117, 58]
}

/// `, `, between the start and the end of a chain.
#[verifier::opaque]
pub open spec fn sep_tag() -> Seq<u8> {
    seq![44u8, 32]
}

/// The newline that ends every line.
#[verifier::opaque]
pub open spec fn nl() -> Seq<u8> {
    seq![10u8]
}

/// The header line of a table of `m` chains of `c` steps with reduction
/// function `r`.
pub open spec fn header_text(m: nat, c: nat, r: nat) -> Seq<u8> {
    nchain_tag() + dec(m) + ncolumns_tag() + dec(c) + redu_tag() + dec(r) + nl()
}

/// The line of one chain.
pub open spec fn line_text(ch: Chain) -> Seq<u8> {
    dec(ch.start as nat) + sep_tag() + dec(ch.end as nat) + nl()
}

/// The lines of `chains`, in order.
pub open spec fn body_text(chains: Seq<Chain>) -> Seq<u8>
    decreases chains.len(),
{
    if chains.len() == 0 {
        Seq::empty()
    } else {
        line_text(chains[0]) + body_text(chains.drop_first())
    }
}

/// The whole text of the table with reduction function `r`, chains of `c`
/// steps, and chains `chains`.
pub open spec fn table_text(r: u8, c: u64, chains: Seq<Chain>) -> Seq<u8> {
    header_text(chains.len(), c as nat, r as nat) + body_text(chains)
}

/// The text of the table `t`.
pub open spec fn text_of(t: &Table) -> Seq<u8> {
    table_text(t.reduction, t.ncolumns, t.chains@)
}

pub proof fn lemma_dec_digits(n: nat)
    ensures
        dec(n).len() >= 1,
        all_digits(dec(n)),
    decreases n,
{
    if n >= 10 {
        lemma_dec_digits(n / 10);
    }
}

pub proof fn lemma_dec_value(n: nat)
    ensures
        digits_value(dec(n)) == n,
    decreases n,
{
    if n >= 10 {
        lemma_dec_value(n / 10);
        assert(dec(n).drop_last() =~= dec(n / 10));
        assert(dec(n).last() as int == 48 + n % 10);
        assert((n / 10) * 10 + n % 10 == n);
    } else {
        assert(dec(n).drop_last() =~= Seq::<u8>::empty());
        assert(dec(n).last() as int == 48 + n);
        assert(digits_value(Seq::<u8>::empty()) == 0);
    }
}

/// Lengths and first bytes of the fixed parts of the text.
pub proof fn lemma_tags()
    ensures
        nchain_tag().len() == 8,
        ncolumns_tag().len() == 12,
        redu_tag().len() == 7,
        sep_tag().len() == 2,
        nl().len() == 1,
        !is_digit(ncolumns_tag()[0]),
        !is_digit(redu_tag()[0]),
        !is_digit(sep_tag()[0]),
        !is_digit(nl()[0]),
{
    reveal(nchain_tag);
    reveal(ncolumns_tag);
    reveal(redu_tag);
    reveal(sep_tag);
    reveal(nl);
}

/// A number followed by a field that starts with a non-digit is read back,
/// and so is what follows that field.
proof fn lemma_field(a: nat, b: nat, p: Seq<u8>, x: Seq<u8>, y: Seq<u8>)
    requires
        dec(a) + (p + x) == dec(b) + (p + y),
        p.len() > 0,
        !is_digit(p[0]),
    ensures
        a == b,
        x == y,
{
    let px = p + x;
    let py = p + y;
    assert(px[0] == p[0]);
    assert(py[0] == p[0]);
    lemma_dec_prefix(a, b, px, py);
    lemma_strip(p, x, y);
}

/// A decimal number followed by a non-digit can be read back: the digits
/// end where the number does.
pub proof fn lemma_dec_prefix(a: nat, b: nat, x: Seq<u8>, y: Seq<u8>)
    requires
        dec(a) + x == dec(b) + y,
        x.len() > 0,
        !is_digit(x[0]),
        y.len() > 0,
        !is_digit(y[0]),
    ensures
        a == b,
        x == y,
{
    lemma_dec_digits(a);
    lemma_dec_digits(b);
    let la = dec(a).len();
    let lb = dec(b).len();
    if la < lb {
        assert((dec(a) + x)[la as int] == x[0]);
        assert((dec(b) + y)[la as int] == dec(b)[la as int]);
    } else if lb < la {
        assert((dec(b) + y)[lb as int] == y[0]);
        assert((dec(a) + x)[lb as int] == dec(a)[lb as int]);
    }
    assert(dec(a) =~= (dec(a) + x).subrange(0, la as int));
    assert(dec(b) =~= (dec(b) + y).subrange(0, lb as int));
    assert(x =~= (dec(a) + x).subrange(la as int, (dec(a) + x).len() as int));
    assert(y =~= (dec(b) + y).subrange(lb as int, (dec(b) + y).len() as int));
    lemma_dec_value(a);
    lemma_dec_value(b);
}

/// A common prefix can be taken off both sides of an equality.
proof fn lemma_strip(p: Seq<u8>, x: Seq<u8>, y: Seq<u8>)
    requires
        p + x == p + y,
    ensures
        x == y,
{
    assert(x =~= (p + x).subrange(p.len() as int, (p + x).len() as int));
    assert(y =~= (p + y).subrange(p.len() as int, (p + y).len() as int));
}

#[verifier::rlimit(40)]
proof fn lemma_body_injective(c1: Seq<Chain>, c2: Seq<Chain>)
    requires
        body_text(c1) == body_text(c2),
    ensures
        c1 == c2,
    decreases c1.len(),
{
    lemma_tags();
    if c1.len() == 0 && c2.len() == 0 {
        assert(c1 =~= c2);
    } else if c1.len() == 0 {
        assert(body_text(c2).len() > 0);
    } else if c2.len() == 0 {
        assert(body_text(c1).len() > 0);
    } else {
        let (a, b) = (c1[0], c2[0]);
        let r1 = body_text(c1.drop_first());
        let r2 = body_text(c2.drop_first());
        let e1 = dec(a.end as nat) + (nl() + r1);
        let e2 = dec(b.end as nat) + (nl() + r2);
        assert(body_text(c1) =~= dec(a.start as nat) + (sep_tag() + e1));
        assert(body_text(c2) =~= dec(b.start as nat) + (sep_tag() + e2));
        lemma_field(a.start as nat, b.start as nat, sep_tag(), e1, e2);
        lemma_field(a.end as nat, b.end as nat, nl(), r1, r2);
        lemma_body_injective(c1.drop_first(), c2.drop_first());
        assert(c1 =~= seq![a] + c1.drop_first());
        assert(c2 =~= seq![b] + c2.drop_first());
    }
}

proof fn lemma_regroup(
    a: Seq<u8>,
    b: Seq<u8>,
    c: Seq<u8>,
    d: Seq<u8>,
    e: Seq<u8>,
    f: Seq<u8>,
    g: Seq<u8>,
    h: Seq<u8>,
)
    ensures
        a + b + c + d + e + f + g + h == a + (b + (c + (d + (e + (f + (g + h)))))),
{
    assert(a + b + c + d + e + f + g + h =~= a + (b + (c + (d + (e + (f + (g + h)))))));
}

/// A persisted table determines its header and its chains: two tables with
/// the same text have the same reduction function, the same chain length and
/// the same chains, in the same order.
pub proof fn lemma_text_injective(r1: u8, n1: u64, c1: Seq<Chain>, r2: u8, n2: u64, c2: Seq<Chain>)
    requires
        table_text(r1, n1, c1) == table_text(r2, n2, c2),
    ensures
        r1 == r2,
        n1 == n2,
        c1 == c2,
{
    lemma_tags();
    let b1 = body_text(c1);
    let b2 = body_text(c2);
    let y1 = dec(r1 as nat) + (nl() + b1);
    let y2 = dec(r2 as nat) + (nl() + b2);
    let x1 = dec(n1 as nat) + (redu_tag() + y1);
    let x2 = dec(n2 as nat) + (redu_tag() + y2);
    let w1 = dec(c1.len()) + (ncolumns_tag() + x1);
    let w2 = dec(c2.len()) + (ncolumns_tag() + x2);
    lemma_regroup(nchain_tag(), dec(c1.len()), ncolumns_tag(), dec(n1 as nat), redu_tag(), dec(r1 as nat), nl(), b1);
    lemma_regroup(nchain_tag(), dec(c2.len()), ncolumns_tag(), dec(n2 as nat), redu_tag(), dec(r2 as nat), nl(), b2);
    lemma_strip(nchain_tag(), w1, w2);
    lemma_field(c1.len(), c2.len(), ncolumns_tag(), x1, x2);
    lemma_field(n1 as nat, n2 as nat, redu_tag(), y1, y2);
    lemma_field(r1 as nat, r2 as nat, nl(), b1, b2);
    lemma_body_injective(c1, c2);
}

/// Appends the canonical decimal form of `n`.
fn push_dec(out: &mut Vec<u8>, n: u64)
    ensures
        final(out)@ == old(out)@ + dec(n as nat),
    decreases n,
{
    if n >= 10 {
        push_dec(out, n / 10);
    }
    out.push(48u8 + (n % 10) as u8);
    assert(final(out)@ =~= old(out)@ + dec(n as nat));
}

/// Appends the bytes of `s`.
fn push_bytes(out: &mut Vec<u8>, s: &[u8])
    ensures
        final(out)@ == old(out)@ + s@,
{
    let mut i: usize = 0;
    while i < s.len()
        invariant
            i <= s@.len(),
            out@ == old(out)@ + s@.subrange(0, i as int),
        decreases s@.len() - i,
    {
        out.push(s[i]);
        i = i + 1;
        assert(out@ =~= old(out)@ + s@.subrange(0, i as int));
    }
    assert(s@.subrange(0, i as int) =~= s@);
}

fn nchain_bytes() -> (t: [u8; 8])
    ensures
        t@ == nchain_tag(),
{
    reveal(nchain_tag);
    let t: [u8; 8] = [110u8, 99, 104, 97, 105, 110, 58, 32];
    assert(t@ =~= nchain_tag());
    t
}

fn ncolumns_bytes() -> (t: [u8; 12])
    ensures
        t@ == ncolumns_tag(),
{
    reveal(ncolumns_tag);
    let t: [u8; 12] = [44u8, 32, 110, 99, 111, 108, 117, 109, 110, 115, 58, 32];
    assert(t@ =~= ncolumns_tag());
    t
}

fn redu_bytes() -> (t: [u8; 7])
    ensures
        t@ == redu_tag(),
{
    reveal(redu_tag);
    let t: [u8; 7] = [44u8, 32, 114, 101, 100, 117, 58];
    assert(t@ =~= redu_tag());
    t
}

fn sep_bytes() -> (t: [u8; 2])
    ensures
        t@ == sep_tag(),
{
    reveal(sep_tag);
    let t: [u8; 2] = [44u8, 32];
    assert(t@ =~= sep_tag());
    t
}

fn nl_bytes() -> (t: [u8; 1])
    ensures
        t@ == nl(),
{
    reveal(nl);
    let t: [u8; 1] = [10u8];
    assert(t@ =~= nl());
    t
}

/// Appends the header line of a table.
fn push_header(out: &mut Vec<u8>, m: u64, c: u64, r: u8)
    ensures
        final(out)@ == old(out)@ + header_text(m as nat, c as nat, r as nat),
{
    reveal(nl);
    let t1 = nchain_bytes();
    let t2 = ncolumns_bytes();
    let t3 = redu_bytes();
    push_bytes(out, &t1);
    push_dec(out, m);
    push_bytes(out, &t2);
    push_dec(out, c);
    push_bytes(out, &t3);
    push_dec(out, r as u64);
    out.push(10u8);
    assert(final(out)@ =~= old(out)@ + header_text(m as nat, c as nat, r as nat));
}

/// Appends the line of one chain.
fn push_line(out: &mut Vec<u8>, ch: Chain)
    ensures
        final(out)@ == old(out)@ + line_text(ch),
{
    reveal(sep_tag);
    reveal(nl);
    push_dec(out, ch.start);
    out.push(44u8);
    out.push(32u8);
    push_dec(out, ch.end);
    out.push(10u8);
    assert(final(out)@ =~= old(out)@ + line_text(ch));
}

/// The text of a table, as it is persisted: the header line, then one line
/// per chain in order.
pub fn render_table(t: &Table) -> (out: Vec<u8>)
    ensures
        out@ == text_of(t),
{
    let mut out: Vec<u8> = Vec::new();
    push_header(&mut out, t.chains.len() as u64, t.ncolumns, t.reduction);
    let ghost all = t.chains@;
    assert(all.skip(0) =~= all);
    let mut i: usize = 0;
    while i < t.chains.len()
        invariant
            i <= all.len(),
            all == t.chains@,
            out@ + body_text(all.skip(i as int)) == text_of(t),
        decreases all.len() - i,
    {
        let ghost before = out@;
        push_line(&mut out, t.chains[i]);
        assert(all.skip(i as int).drop_first() =~= all.skip(i + 1));
        assert(body_text(all.skip(i as int)) == line_text(all[i as int]) + body_text(all.skip(i + 1)));
        assert(out@ + body_text(all.skip(i + 1)) =~= before + body_text(all.skip(i as int)));
        i = i + 1;
    }
    assert(body_text(all.skip(i as int)) =~= Seq::<u8>::empty());
    assert(out@ =~= out@ + body_text(all.skip(i as int)));
    out
}

/// `b[pos..]` starts with the canonical decimal form of `n`, followed by the
/// end of `b` or by a byte that is no digit.
pub open spec fn dec_at(b: Seq<u8>, pos: int, n: nat) -> bool {
    let e = pos + dec(n).len();
    &&& e <= b.len()
    &&& b.subrange(pos, e) == dec(n)
    &&& (e == b.len() || !is_digit(b[e]))
}

/// Some table has the text `b`.
pub open spec fn is_table_text(b: Seq<u8>) -> bool {
    exists|r: u8, c: u64, ch: Seq<Chain>| table_text(r, c, ch) == b
}

proof fn lemma_value_prefix(s: Seq<u8>, k: int)
    requires
        all_digits(s),
        0 <= k <= s.len(),
    ensures
        0 <= digits_value(s.subrange(0, k)) <= digits_value(s),
    decreases s.len(),
{
    if s.len() == 0 {
        assert(s.subrange(0, k) =~= s);
    } else {
        let d = s.drop_last();
        let k2 = if k < s.len() { k } else { k - 1 };
        assert(all_digits(d)) by {
            assert forall|i: int| 0 <= i < d.len() implies is_digit(#[trigger] d[i]) by {
                assert(d[i] == s[i]);
            }
        }
        lemma_value_prefix(d, k2);
        assert(d.subrange(0, k2) =~= s.subrange(0, k2));
        assert(is_digit(s[s.len() - 1]));
        if k == s.len() {
            assert(s.subrange(0, k) =~= s);
        }
    }
}

proof fn lemma_body_len(ch: Seq<Chain>)
    ensures
        body_text(ch).len() >= ch.len(),
        ch.len() > 0 ==> body_text(ch).len() > 0,
    decreases ch.len(),
{
    if ch.len() > 0 {
        lemma_tags();
        lemma_body_len(ch.drop_first());
    }
}

proof fn lemma_read_tag(b: Seq<u8>, pos: int, tag: Seq<u8>, x: Seq<u8>)
    requires
        0 <= pos <= b.len(),
        b.skip(pos) == tag + x,
    ensures
        pos + tag.len() <= b.len(),
        b.subrange(pos, pos + tag.len()) == tag,
        b.skip(pos + tag.len()) == x,
{
    assert(b.subrange(pos, pos + tag.len()) =~= (tag + x).subrange(0, tag.len() as int));
    assert(b.skip(pos + tag.len()) =~= (tag + x).skip(tag.len() as int));
}

proof fn lemma_read_dec(b: Seq<u8>, pos: int, n: nat, x: Seq<u8>)
    requires
        0 <= pos <= b.len(),
        b.skip(pos) == dec(n) + x,
        x.len() > 0,
        !is_digit(x[0]),
    ensures
        dec_at(b, pos, n),
        b.skip(pos + dec(n).len()) == x,
{
    lemma_read_tag(b, pos, dec(n), x);
    assert(b[pos + dec(n).len()] == b.skip(pos)[dec(n).len() as int]);
}

/// Reads the run of decimal digits that starts at `pos`, if it holds at
/// least one digit and its value fits in 64 bits; returns the value and the
/// position after the run.
fn parse_dec(b: &[u8], pos: usize) -> (res: Option<(u64, usize)>)
    requires
        pos <= b@.len(),
    ensures
        res matches Some((v, e)) ==> {
            &&& pos < e <= b@.len()
            &&& all_digits(b@.subrange(pos as int, e as int))
            &&& (e == b@.len() || !is_digit(b@[e as int]))
            &&& v == digits_value(b@.subrange(pos as int, e as int))
        },
        forall|n: nat|
            n <= u64::MAX && #[trigger] dec_at(b@, pos as int, n) ==> res == Some(
                (n as u64, (pos + dec(n).len()) as usize),
            ),
{
    let mut i: usize = pos;
    let mut v: u64 = 0;
    assert(b@.subrange(pos as int, pos as int) =~= Seq::<u8>::empty());
    while i < b.len() && b[i] >= 48u8 && b[i] <= 57u8
        invariant
            pos <= i <= b@.len(),
            all_digits(b@.subrange(pos as int, i as int)),
            v == digits_value(b@.subrange(pos as int, i as int)),
        decreases b@.len() - i,
    {
        let d: u64 = (b[i] - 48u8) as u64;
        let ghost next = b@.subrange(pos as int, i + 1);
        assert(next.drop_last() =~= b@.subrange(pos as int, i as int));
        assert(all_digits(next)) by {
            assert forall|j: int| 0 <= j < next.len() implies is_digit(#[trigger] next[j]) by {
                if j < next.len() - 1 {
                    assert(next[j] == b@.subrange(pos as int, i as int)[j]);
                }
            }
        }
        if v > (u64::MAX - d) / 10 {
            proof {
                assert forall|n: nat| n <= u64::MAX && #[trigger] dec_at(b@, pos as int, n) implies false by {
                    let e = pos + dec(n).len();
                    lemma_dec_digits(n);
                    lemma_dec_value(n);
                    if i >= e {
                        assert(b@[e] == b@.subrange(pos as int, i + 1)[e - pos]);
                    }
                    assert(next =~= dec(n).subrange(0, i + 1 - pos));
                    lemma_value_prefix(dec(n), i + 1 - pos);
                }
            }
            return None;
        }
        v = v * 10 + d;
        i = i + 1;
    }
    if i == pos {
        proof {
            assert forall|n: nat| n <= u64::MAX && #[trigger] dec_at(b@, pos as int, n) implies false by {
                lemma_dec_digits(n);
                assert(b@[pos as int] == dec(n)[0]);
            }
        }
        return None;
    }
    proof {
        assert forall|n: nat| n <= u64::MAX && #[trigger] dec_at(b@, pos as int, n) implies i == pos
            + dec(n).len() && v == n by {
            let e = pos + dec(n).len();
            lemma_dec_digits(n);
            lemma_dec_value(n);
            if i < e {
                assert(b@[i as int] == dec(n)[i - pos]);
            } else if i > e {
                assert(b@[e] == b@.subrange(pos as int, i as int)[e - pos]);
            }
        }
    }
    Some((v, i))
}

/// Whether `b[pos..]` starts with `tag`.
fn expect(b: &[u8], pos: usize, tag: &[u8]) -> (ok: bool)
    requires
        pos <= b@.len(),
    ensures
        ok == (pos + tag@.len() <= b@.len() && b@.subrange(pos as int, pos + tag@.len()) == tag@),
{
    let blen = b.len();
    if tag.len() > blen - pos {
        return false;
    }
    let mut i: usize = 0;
    while i < tag.len()
        invariant
            blen == b@.len(),
            pos + tag@.len() <= b@.len(),
            i <= tag@.len(),
            forall|j: int| 0 <= j < i ==> b@[pos + j] == tag@[j],
        decreases tag@.len() - i,
    {
        if b[pos + i] != tag[i] {
            assert(b@.subrange(pos as int, pos + tag@.len())[i as int] != tag@[i as int]);
            return false;
        }
        i = i + 1;
    }
    assert(b@.subrange(pos as int, pos + tag@.len()) =~= tag@);
    true
}

/// Reads a table out of `b` field by field; whenever `b` is the text of
/// some table, this is that table.
fn scan_table(b: &[u8]) -> (res: Option<Table>)
    ensures
        is_table_text(b@) ==> (res matches Some(t) && text_of(&t) == b@),
{
    let blen = b.len();
    let ghost w = is_table_text(b@);
    let ghost (r0, c0, ch0) = choose|r: u8, c: u64, ch: Seq<Chain>| table_text(r, c, ch) == b@;
    let ghost body0 = body_text(ch0);
    let ghost y_r = dec(r0 as nat) + (nl() + body0);
    let ghost x_c = dec(c0 as nat) + (redu_tag() + y_r);
    let ghost w_m = dec(ch0.len()) + (ncolumns_tag() + x_c);
    proof {
        lemma_tags();
        lemma_regroup(nchain_tag(), dec(ch0.len()), ncolumns_tag(), dec(c0 as nat), redu_tag(), dec(r0 as nat), nl(), body0);
        assert(b@.skip(0) =~= b@);
        if w {
            lemma_read_tag(b@, 0, nchain_tag(), w_m);
            lemma_body_len(ch0);
        }
    }
    let t1 = nchain_bytes();
    if !expect(b, 0, &t1) {
        return None;
    }
    let pos: usize = 8;
    proof {
        if w {
            lemma_read_dec(b@, pos as int, ch0.len(), ncolumns_tag() + x_c);
        }
    }
    let (_m, pos) = match parse_dec(b, pos) {
        Some(p) => p,
        None => return None,
    };
    proof {
        if w {
            lemma_read_tag(b@, pos as int, ncolumns_tag(), x_c);
        }
    }
    let t2 = ncolumns_bytes();
    if !expect(b, pos, &t2) {
        return None;
    }
    let pos = pos + 12;
    proof {
        if w {
            lemma_read_dec(b@, pos as int, c0 as nat, redu_tag() + y_r);
        }
    }
    let (c, pos) = match parse_dec(b, pos) {
        Some(p) => p,
        None => return None,
    };
    proof {
        if w {
            lemma_read_tag(b@, pos as int, redu_tag(), y_r);
        }
    }
    let t3 = redu_bytes();
    if !expect(b, pos, &t3) {
        return None;
    }
    let pos = pos + 7;
    proof {
        if w {
            lemma_read_dec(b@, pos as int, r0 as nat, nl() + body0);
        }
    }
    let (r, pos) = match parse_dec(b, pos) {
        Some(p) => p,
        None => return None,
    };
    if r > 255 {
        return None;
    }
    proof {
        if w {
            lemma_read_tag(b@, pos as int, nl(), body0);
        }
    }
    let t4 = nl_bytes();
    if !expect(b, pos, &t4) {
        return None;
    }
    let mut pos = pos + 1;
    let t5 = sep_bytes();
    let mut chains: Vec<Chain> = Vec::new();
    proof {
        if w {
            assert(ch0.skip(0) =~= ch0);
            assert(ch0.take(0) =~= chains@);
        }
    }
    while pos < blen
        invariant
            blen == b@.len(),
            w == is_table_text(b@),
            pos <= b@.len(),
            t4@ == nl(),
            t5@ == sep_tag(),
            w ==> {
                &&& chains@.len() <= ch0.len()
                &&& b@.skip(pos as int) == body_text(ch0.skip(chains@.len() as int))
                &&& chains@ == ch0.take(chains@.len() as int)
            },
        decreases b@.len() - pos,
    {
        let ghost k = chains@.len() as int;
        let ghost rest = body_text(ch0.skip(k + 1));
        let ghost e0 = dec(ch0[k].end as nat) + (nl() + rest);
        proof {
            if w {
                lemma_tags();
                assert(b@.skip(pos as int).len() > 0);
                if k == ch0.len() {
                    assert(body_text(ch0.skip(k)) == Seq::<u8>::empty());
                }
                assert(k < ch0.len());
                assert(ch0.skip(k)[0] == ch0[k]);
                assert(ch0.skip(k).drop_first() =~= ch0.skip(k + 1));
                assert(body_text(ch0.skip(k)) =~= dec(ch0[k].start as nat) + (sep_tag() + e0));
                lemma_read_dec(b@, pos as int, ch0[k].start as nat, sep_tag() + e0);
            }
        }
        let (start, p) = match parse_dec(b, pos) {
            Some(p) => p,
            None => return None,
        };
        proof {
            if w {
                lemma_read_tag(b@, p as int, sep_tag(), e0);
            }
        }
        if !expect(b, p, &t5) {
            return None;
        }
        let p = p + 2;
        proof {
            if w {
                lemma_read_dec(b@, p as int, ch0[k].end as nat, nl() + rest);
            }
        }
        let (end, p) = match parse_dec(b, p) {
            Some(p) => p,
            None => return None,
        };
        proof {
            if w {
                lemma_read_tag(b@, p as int, nl(), rest);
            }
        }
        if !expect(b, p, &t4) {
            return None;
        }
        chains.push(Chain { start, end });
        pos = p + 1;
        proof {
            if w {
                assert(chains@ =~= ch0.take(k + 1));
            }
        }
    }
    proof {
        if w {
            lemma_body_len(ch0.skip(chains@.len() as int));
            assert(b@.skip(pos as int).len() == 0);
            assert(chains@ =~= ch0);
        }
    }
    Some(Table { reduction: r as u8, ncolumns: c, chains })
}

/// Whether two byte strings are equal.
fn bytes_equal(a: &[u8], b: &[u8]) -> (eq: bool)
    ensures
        eq == (a@ == b@),
{
    if a.len() != b.len() {
        return false;
    }
    let mut i: usize = 0;
    while i < a.len()
        invariant
            a@.len() == b@.len(),
            i <= a@.len(),
            forall|j: int| 0 <= j < i ==> a@[j] == b@[j],
        decreases a@.len() - i,
    {
        if a[i] != b[i] {
            return false;
        }
        i = i + 1;
    }
    assert(a@ =~= b@);
    true
}

/// Parses the text of a persisted table. Succeeds exactly on the texts that
/// `render_table` writes, and then gives back the table that was written:
/// the same reduction function, chain length and chains, in order.
pub fn parse_table(b: &[u8]) -> (res: Option<Table>)
    ensures
        res matches Some(t) ==> text_of(&t) == b@,
        res is None <==> !is_table_text(b@),
        forall|r: u8, c: u64, ch: Seq<Chain>|
            #[trigger] table_text(r, c, ch) == b@ ==> (res matches Some(t) && t.reduction == r
                && t.ncolumns == c && t.chains@ == ch),
{
    let res = match scan_table(b) {
        Some(t) => {
            let text = render_table(&t);
            if bytes_equal(text.as_slice(), b) {
                Some(t)
            } else {
                None
            }
        },
        None => None,
    };
    proof {
        if res is Some {
            let t = res->0;
            assert forall|r: u8, c: u64, ch: Seq<Chain>|
                #[trigger] table_text(r, c, ch) == b@ implies (t.reduction == r && t.ncolumns == c
                    && t.chains@ == ch) by {
                lemma_text_injective(r, c, ch, t.reduction, t.ncolumns, t.chains@);
            }
        }
    }
    res
}

/// `.txt`
#[verifier::opaque]
pub open spec fn txt_ext() -> Seq<u8> {
    seq![46u8, 116, 120, 116]
}

/// Name of the artifact of the table with reduction function `r`:
/// `<r>.txt`, so that tables with distinct reduction functions never share
/// an artifact.
pub fn artifact_name(r: u8) -> (name: Vec<u8>)
    ensures
        name@ == dec(r as nat) + txt_ext(),
{
    reveal(txt_ext);
    let mut name: Vec<u8> = Vec::new();
    push_dec(&mut name, r as u64);
    let ext: [u8; 4] = [46u8, 116, 120, 116];
    assert(ext@ =~= txt_ext());
    push_bytes(&mut name, &ext);
    name
}

} // verus!
