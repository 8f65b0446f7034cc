//! The manifest store: the persisted form of the manifest, written and read
//! by the library itself.
//!
//! The document is structured text with a single field `entries` holding the
//! ordered entry list: `{"entries":[{"path":"..","size":N,"start":N},..]}`.
//! Path bytes are escaped so that a quote or a backslash inside a path
//! round-trips; sizes and offsets are written in decimal. `save_manifest`
//! produces exactly the canonical form `ser_manifest` describes, and
//! `load_manifest` accepts what `p_manifest` describes, so the round-trip
//! law `lemma_manifest_roundtrip` speaks of every saved manifest.

use vstd::prelude::*;
use crate::manifest::FileEntry;
use crate::manifest::GEntry;
use crate::manifest::models;
use crate::Error;

verus! {

pub const QUOTE: u8 = 34;
pub const COMMA: u8 = 44;
pub const BACKSLASH: u8 = 92;
pub const RBRACK: u8 = 93;
pub const RBRACE: u8 = 125;
pub const DIGIT_ZERO: u8 = 48;

// ---------------------------------------------------------------------------
// The canonical serialized form.
// ---------------------------------------------------------------------------

/// The document's opening: `{"entries":[`.
pub open spec fn header() -> Seq<u8> {
    seq![123u8, 34u8, 101u8, 110u8, 116u8, 114u8, 105u8, 101u8, 115u8, 34u8, 58u8, 91u8]
}

/// The document's closing: `]}`.
pub open spec fn footer() -> Seq<u8> {
    seq![93u8, 125u8]
}

/// One entry's opening, up to the path's opening quote: `{"path":"`.
pub open spec fn entry_prefix() -> Seq<u8> {
    seq![123u8, 34u8, 112u8, 97u8, 116u8, 104u8, 34u8, 58u8, 34u8]
}

/// Between the path's closing quote and the size's digits: `,"size":`.
pub open spec fn size_label() -> Seq<u8> {
    seq![44u8, 34u8, 115u8, 105u8, 122u8, 101u8, 34u8, 58u8]
}

/// Between the size's digits and the start's digits: `,"start":`.
pub open spec fn start_label() -> Seq<u8> {
    seq![44u8, 34u8, 115u8, 116u8, 97u8, 114u8, 116u8, 34u8, 58u8]
}

/// One path byte in its escaped form: a quote or a backslash gets a
/// backslash before it, every other byte stands as it is.
pub open spec fn esc_byte(b: u8) -> Seq<u8> {
    if b == QUOTE || b == BACKSLASH {
        seq![BACKSLASH, b]
    } else {
        seq![b]
    }
}

/// A whole path in its escaped form.
pub open spec fn esc_bytes(s: Seq<u8>) -> Seq<u8>
    decreases s.len(),
{
    if s.len() == 0 {
        Seq::empty()
    } else {
        esc_byte(s[0]) + esc_bytes(s.drop_first())
    }
}

/// A natural number in decimal, most significant digit first.
pub open spec fn dec_digits(n: nat) -> Seq<u8>
    decreases n,
{
    if n < 10 {
        seq![(DIGIT_ZERO + n) as u8]
    } else {
        dec_digits(n / 10) + seq![(DIGIT_ZERO + n % 10) as u8]
    }
}

/// One entry's canonical form:
/// `{"path":"<escaped>","size":<digits>,"start":<digits>}`.
pub open spec fn ser_entry(g: GEntry) -> Seq<u8> {
    entry_prefix() + esc_bytes(g.path) + seq![QUOTE] + size_label() + dec_digits(g.size)
        + start_label() + dec_digits(g.start) + seq![RBRACE]
}

/// The entry list's canonical form: entries separated by commas.
pub open spec fn ser_entries(ges: Seq<GEntry>) -> Seq<u8>
    decreases ges.len(),
{
    if ges.len() == 0 {
        Seq::empty()
    } else if ges.len() == 1 {
        ser_entry(ges[0])
    } else {
        ser_entry(ges[0]) + seq![COMMA] + ser_entries(ges.drop_first())
    }
}

/// The whole document's canonical form.
pub open spec fn ser_manifest(ges: Seq<GEntry>) -> Seq<u8> {
    header() + ser_entries(ges) + footer()
}

// ---------------------------------------------------------------------------
// The serializer.
// ---------------------------------------------------------------------------

/// Escaping distributes over concatenation.
proof fn lemma_esc_bytes_concat(a: Seq<u8>, b: Seq<u8>)
    ensures
        esc_bytes(a + b) == esc_bytes(a) + esc_bytes(b),
    decreases a.len(),
{
    if a.len() == 0 {
        assert(a + b =~= b);
        assert(esc_bytes(a) + esc_bytes(b) =~= esc_bytes(b));
    } else {
        assert((a + b).drop_first() =~= a.drop_first() + b);
        lemma_esc_bytes_concat(a.drop_first(), b);
        assert(esc_byte(a[0]) + (esc_bytes(a.drop_first()) + esc_bytes(b)) =~= (esc_byte(a[0])
            + esc_bytes(a.drop_first())) + esc_bytes(b));
    }
}

/// A one-byte sequence escapes to that byte's escaped form.
proof fn lemma_esc_bytes_single(b: u8)
    ensures
        esc_bytes(seq![b]) == esc_byte(b),
{
    assert(seq![b].len() == 1);
    assert(seq![b][0] == b);
    assert(seq![b].drop_first() =~= Seq::<u8>::empty());
    assert(esc_bytes(seq![b]) == esc_byte(b) + esc_bytes(Seq::<u8>::empty()));
    assert(esc_byte(b) + Seq::<u8>::empty() =~= esc_byte(b));
}

/// Append one path byte's escaped form.
fn push_escaped_byte(out: &mut Vec<u8>, b: u8)
    ensures
        final(out)@ == old(out)@ + esc_byte(b),
{
    if b == QUOTE || b == BACKSLASH {
        out.push(BACKSLASH);
        out.push(b);
        proof {
            assert(out@ =~= old(out)@ + esc_byte(b));
        }
    } else {
        out.push(b);
        proof {
            assert(out@ =~= old(out)@ + esc_byte(b));
        }
    }
}

/// Append a whole path in escaped form.
fn push_escaped(out: &mut Vec<u8>, path: &Vec<u8>)
    ensures
        final(out)@ == old(out)@ + esc_bytes(path@),
{
    let ghost orig = out@;
    let mut i: usize = 0;
    while i < path.len()
        invariant
            i <= path@.len(),
            out@ == orig + esc_bytes(path@.take(i as int)),
        decreases path@.len() - i,
    {
        let ghost pre = path@.take(i as int);
        push_escaped_byte(out, path[i]);
        i = i + 1;
        proof {
            assert(path@.take(i as int) =~= pre + seq![path@[i - 1]]);
            lemma_esc_bytes_concat(pre, seq![path@[i - 1]]);
            lemma_esc_bytes_single(path@[i - 1]);
            assert(out@ =~= orig + (esc_bytes(pre) + esc_byte(path@[i - 1])));
        }
    }
    proof {
        assert(path@.take(path@.len() as int) =~= path@);
    }
}

/// Append a number's decimal digits, most significant first.
fn push_number(out: &mut Vec<u8>, n: usize)
    ensures
        final(out)@ == old(out)@ + dec_digits(n as nat),
{
    let ghost orig = out@;
    let mut tmp: Vec<u8> = Vec::new();
    let mut m: usize = n;
    if m == 0 {
        out.push(DIGIT_ZERO);
        proof {
            assert(out@ =~= orig + dec_digits(0));
        }
        return ;
    }
    while m > 0
        invariant
            dec_digits(n as nat) == if m > 0 {
                dec_digits(m as nat) + tmp@.reverse()
            } else {
                tmp@.reverse()
            },
        decreases m,
    {
        let ghost old_tmp = tmp@;
        let d: u8 = DIGIT_ZERO + (m % 10) as u8;
        tmp.push(d);
        proof {
            assert(tmp@.reverse() =~= seq![d] + old_tmp.reverse());
        }
        if m >= 10 {
            proof {
                assert(dec_digits(m as nat) == dec_digits((m as nat) / 10) + seq![d]);
                assert(dec_digits((m as nat) / 10) + (seq![d] + old_tmp.reverse()) =~= (dec_digits(
                    (m as nat) / 10,
                ) + seq![d]) + old_tmp.reverse());
                assert((m / 10) as nat == (m as nat) / 10);
            }
        } else {
            proof {
                assert(dec_digits(m as nat) == seq![d]);
                assert(seq![d] + old_tmp.reverse() =~= dec_digits(m as nat) + old_tmp.reverse());
                assert(m / 10 == 0) by {
                    assert(m < 10);
                }
            }
        }
        m = m / 10;
    }
    let mut k: usize = tmp.len();
    while k > 0
        invariant
            k <= tmp@.len(),
            out@ == orig + tmp@.skip(k as int).reverse(),
        decreases k,
    {
        k = k - 1;
        out.push(tmp[k]);
        proof {
            assert(tmp@.skip(k as int).reverse() =~= tmp@.skip(k + 1).reverse().push(tmp@[k as int]));
        }
    }
    proof {
        assert(tmp@.skip(0) =~= tmp@);
    }
}

/// Append the document's opening.
fn push_header(out: &mut Vec<u8>)
    ensures
        final(out)@ == old(out)@ + header(),
{
    out.push(123);
    out.push(34);
    out.push(101);
    out.push(110);
    out.push(116);
    out.push(114);
    out.push(105);
    out.push(101);
    out.push(115);
    out.push(34);
    out.push(58);
    out.push(91);
    proof {
        assert(out@ =~= old(out)@ + header());
    }
}

/// Append one entry's opening, up to the path's opening quote.
fn push_entry_prefix(out: &mut Vec<u8>)
    ensures
        final(out)@ == old(out)@ + entry_prefix(),
{
    out.push(123);
    out.push(34);
    out.push(112);
    out.push(97);
    out.push(116);
    out.push(104);
    out.push(34);
    out.push(58);
    out.push(34);
    proof {
        assert(out@ =~= old(out)@ + entry_prefix());
    }
}

/// Append the label between the path and the size.
fn push_size_label(out: &mut Vec<u8>)
    ensures
        final(out)@ == old(out)@ + size_label(),
{
    out.push(44);
    out.push(34);
    out.push(115);
    out.push(105);
    out.push(122);
    out.push(101);
    out.push(34);
    out.push(58);
    proof {
        assert(out@ =~= old(out)@ + size_label());
    }
}

/// Append the label between the size and the start.
fn push_start_label(out: &mut Vec<u8>)
    ensures
        final(out)@ == old(out)@ + start_label(),
{
    out.push(44);
    out.push(34);
    out.push(115);
    out.push(116);
    out.push(97);
    out.push(114);
    out.push(116);
    out.push(34);
    out.push(58);
    proof {
        assert(out@ =~= old(out)@ + start_label());
    }
}

/// Append one entry's canonical form.
fn push_entry(out: &mut Vec<u8>, e: &FileEntry)
    ensures
        final(out)@ == old(out)@ + ser_entry(e.model()),
{
    let ghost orig = out@;
    push_entry_prefix(out);
    push_escaped(out, &e.path);
    out.push(QUOTE);
    push_size_label(out);
    push_number(out, e.size);
    push_start_label(out);
    push_number(out, e.start);
    out.push(RBRACE);
    proof {
        assert(out@ =~= orig + ser_entry(e.model()));
    }
}

/// Appending one more entry to a non-empty list appends a comma and that
/// entry's form.
proof fn lemma_ser_entries_push(ges: Seq<GEntry>, g: GEntry)
    requires
        ges.len() > 0,
    ensures
        ser_entries(ges.push(g)) == ser_entries(ges) + seq![COMMA] + ser_entry(g),
    decreases ges.len(),
{
    let all = ges.push(g);
    if ges.len() == 1 {
        assert(all.drop_first() =~= seq![g]);
        assert(ser_entries(seq![g]) == ser_entry(g));
        assert(ser_entry(ges[0]) + seq![COMMA] + ser_entry(g) =~= ser_entry(all[0]) + (seq![COMMA]
            + ser_entries(all.drop_first())));
    } else {
        assert(all.drop_first() =~= ges.drop_first().push(g));
        lemma_ser_entries_push(ges.drop_first(), g);
        assert(ser_entry(all[0]) + (seq![COMMA] + ((ser_entries(ges.drop_first()) + seq![COMMA])
            + ser_entry(g))) =~= ((ser_entry(ges[0]) + (seq![COMMA] + ser_entries(
            ges.drop_first(),
        ))) + seq![COMMA]) + ser_entry(g));
    }
}

/// Serialize the ordered entry list to the document's canonical bytes.
pub fn save_manifest(entries: &Vec<FileEntry>) -> (r: Vec<u8>)
    ensures
        r@ == ser_manifest(models(entries@)),
{
    let mut out: Vec<u8> = Vec::new();
    push_header(&mut out);
    let mut i: usize = 0;
    while i < entries.len()
        invariant
            i <= entries@.len(),
            out@ == header() + ser_entries(models(entries@).take(i as int)),
        decreases entries@.len() - i,
    {
        let ghost pre = models(entries@).take(i as int);
        if i > 0 {
            out.push(COMMA);
        }
        push_entry(&mut out, &entries[i]);
        i = i + 1;
        proof {
            let now = models(entries@).take(i as int);
            assert(now =~= pre.push(entries@[i - 1].model()));
            if pre.len() == 0 {
                assert(now =~= seq![entries@[i - 1].model()]);
                assert(out@ =~= header() + ser_entries(now));
            } else {
                lemma_ser_entries_push(pre, entries@[i - 1].model());
                assert(out@ =~= header() + ((ser_entries(pre) + seq![COMMA]) + ser_entry(
                    entries@[i - 1].model(),
                )));
            }
        }
    }
    out.push(RBRACK);
    out.push(RBRACE);
    proof {
        assert(models(entries@).take(entries@.len() as int) =~= models(entries@));
        assert(out@ =~= header() + ser_entries(models(entries@)) + footer());
    }
    out
}

// ---------------------------------------------------------------------------
// The accepted form, as a parser specification. Each function consumes a
// prefix of its input and hands back what is left.
// ---------------------------------------------------------------------------

/// A decimal digit.
pub open spec fn is_digit(b: u8) -> bool {
    DIGIT_ZERO <= b <= 57
}

/// Whether `p` is a prefix of `s`.
pub open spec fn starts_with(s: Seq<u8>, p: Seq<u8>) -> bool {
    p.len() <= s.len() && s.take(p.len() as int) == p
}

/// Consume an exact literal.
pub open spec fn p_lit(s: Seq<u8>, lit: Seq<u8>) -> Option<Seq<u8>> {
    if starts_with(s, lit) {
        Some(s.skip(lit.len() as int))
    } else {
        None
    }
}

/// Consume leading digits, folding them onto an accumulated value.
pub open spec fn p_digits(s: Seq<u8>, acc: nat) -> (nat, Seq<u8>)
    decreases s.len(),
{
    if s.len() > 0 && is_digit(s[0]) {
        p_digits(s.drop_first(), acc * 10 + (s[0] - DIGIT_ZERO) as nat)
    } else {
        (acc, s)
    }
}

/// Consume a decimal number: one or more digits, greedily.
pub open spec fn p_number(s: Seq<u8>) -> Option<(nat, Seq<u8>)> {
    if s.len() > 0 && is_digit(s[0]) {
        Some(p_digits(s, 0))
    } else {
        None
    }
}

/// Consume a string body up to and including its closing quote, undoing the
/// escaping.
pub open spec fn p_string(s: Seq<u8>) -> Option<(Seq<u8>, Seq<u8>)>
    decreases s.len(),
{
    if s.len() == 0 {
        None
    } else if s[0] == QUOTE {
        Some((Seq::empty(), s.drop_first()))
    } else if s[0] == BACKSLASH {
        if s.len() >= 2 && (s[1] == QUOTE || s[1] == BACKSLASH) {
            match p_string(s.skip(2)) {
                Some(pr) => Some((seq![s[1]] + pr.0, pr.1)),
                None => None,
            }
        } else {
            None
        }
    } else {
        match p_string(s.drop_first()) {
            Some(pr) => Some((seq![s[0]] + pr.0, pr.1)),
            None => None,
        }
    }
}

/// Consume one entry.
pub open spec fn p_entry(s: Seq<u8>) -> Option<(GEntry, Seq<u8>)> {
    match p_lit(s, entry_prefix()) {
        None => None,
        Some(s1) => match p_string(s1) {
            None => None,
            Some(path_r) => match p_lit(path_r.1, size_label()) {
                None => None,
                Some(s2) => match p_number(s2) {
                    None => None,
                    Some(size_r) => match p_lit(size_r.1, start_label()) {
                        None => None,
                        Some(s3) => match p_number(s3) {
                            None => None,
                            Some(start_r) => match p_lit(start_r.1, seq![RBRACE]) {
                                None => None,
                                Some(s4) => Some(
                                    (
                                        GEntry {
                                            path: path_r.0,
                                            size: size_r.0,
                                            start: start_r.0,
                                        },
                                        s4,
                                    ),
                                ),
                            },
                        },
                    },
                },
            },
        },
    }
}

/// Digit folding never lengthens what is left.
proof fn lemma_p_digits_consumes(s: Seq<u8>, acc: nat)
    ensures
        p_digits(s, acc).1.len() <= s.len(),
    decreases s.len(),
{
    if s.len() > 0 && is_digit(s[0]) {
        lemma_p_digits_consumes(s.drop_first(), acc * 10 + (s[0] - DIGIT_ZERO) as nat)
    }
}

/// A parsed string consumes at least its closing quote.
proof fn lemma_p_string_consumes(s: Seq<u8>)
    ensures
        p_string(s) matches Some(pr) ==> pr.1.len() < s.len(),
    decreases s.len(),
{
    if s.len() == 0 {
    } else if s[0] == QUOTE {
    } else if s[0] == BACKSLASH {
        if s.len() >= 2 && (s[1] == QUOTE || s[1] == BACKSLASH) {
            lemma_p_string_consumes(s.skip(2));
        }
    } else {
        lemma_p_string_consumes(s.drop_first());
    }
}

/// A parsed entry consumes at least one byte.
proof fn lemma_p_entry_consumes(s: Seq<u8>)
    ensures
        p_entry(s) matches Some(er) ==> er.1.len() < s.len(),
{
    match p_lit(s, entry_prefix()) {
        None => {},
        Some(s1) => {
            lemma_p_string_consumes(s1);
            match p_string(s1) {
                None => {},
                Some(path_r) => {
                    match p_lit(path_r.1, size_label()) {
                        None => {},
                        Some(s2) => {
                            lemma_p_digits_consumes(s2, 0);
                            match p_number(s2) {
                                None => {},
                                Some(size_r) => {
                                    match p_lit(size_r.1, start_label()) {
                                        None => {},
                                        Some(s3) => {
                                            lemma_p_digits_consumes(s3, 0);
                                        },
                                    }
                                },
                            }
                        },
                    }
                },
            }
        },
    }
}

/// Consume a comma-separated list of one or more entries.
pub open spec fn p_entries(s: Seq<u8>) -> Option<(Seq<GEntry>, Seq<u8>)>
    decreases s.len(),
        via p_entries_decreases
{
    match p_entry(s) {
        None => None,
        Some(er) => if er.1.len() > 0 && er.1[0] == COMMA {
            match p_entries(er.1.drop_first()) {
                None => None,
                Some(lr) => Some((seq![er.0] + lr.0, lr.1)),
            }
        } else {
            Some((seq![er.0], er.1))
        },
    }
}

#[via_fn]
proof fn p_entries_decreases(s: Seq<u8>) {
    lemma_p_entry_consumes(s);
}

/// Parse a whole document: the header, then either no entries at all or a
/// comma-separated list of them, then the footer, with nothing after it.
pub open spec fn p_manifest(s: Seq<u8>) -> Option<Seq<GEntry>> {
    match p_lit(s, header()) {
        None => None,
        Some(s1) => if s1 == footer() {
            Some(Seq::empty())
        } else {
            match p_entries(s1) {
                None => None,
                Some(lr) => if lr.1 == footer() {
                    Some(lr.0)
                } else {
                    None
                },
            }
        },
    }
}

// ---------------------------------------------------------------------------
// Round-trip: parsing the canonical form gives back what was serialized.
// ---------------------------------------------------------------------------

/// A literal at the front of the input is consumed exactly.
proof fn lemma_p_lit_roundtrip(lit: Seq<u8>, rest: Seq<u8>)
    ensures
        p_lit(lit + rest, lit) == Some(rest),
{
    assert((lit + rest).take(lit.len() as int) =~= lit);
    assert((lit + rest).skip(lit.len() as int) =~= rest);
}

/// Powers of ten.
pub open spec fn pow10(k: nat) -> nat
    decreases k,
{
    if k == 0 {
        1
    } else {
        10 * pow10((k - 1) as nat)
    }
}

/// A number's decimal form is non-empty and starts with a digit.
proof fn lemma_dec_digits_shape(n: nat)
    ensures
        dec_digits(n).len() >= 1,
        is_digit(dec_digits(n)[0]),
    decreases n,
{
    if n >= 10 {
        lemma_dec_digits_shape(n / 10);
    }
}

/// Folding a number's digits onto an accumulator scales the accumulator by
/// ten for each digit and adds the number.
proof fn lemma_p_digits_roundtrip(n: nat, rest: Seq<u8>, acc: nat)
    ensures
        p_digits(dec_digits(n) + rest, acc) == p_digits(
            rest,
            acc * pow10(dec_digits(n).len()) + n,
        ),
    decreases n,
{
    let s = dec_digits(n) + rest;
    if n < 10 {
        let d = (DIGIT_ZERO + n) as u8;
        assert(s[0] == d);
        assert(is_digit(d));
        assert((d - DIGIT_ZERO) as nat == n);
        assert(s.drop_first() =~= rest);
        assert(dec_digits(n).len() == 1);
        assert(pow10(1) == 10 * pow10(0));
        assert(acc * pow10(1) == acc * 10) by (nonlinear_arith)
            requires pow10(1) == 10,
        ;
    } else {
        let d = (DIGIT_ZERO + n % 10) as u8;
        let k1 = dec_digits(n / 10).len();
        assert(dec_digits(n) == dec_digits(n / 10) + seq![d]);
        assert(s =~= dec_digits(n / 10) + (seq![d] + rest));
        lemma_p_digits_roundtrip(n / 10, seq![d] + rest, acc);
        let acc1 = acc * pow10(k1) + n / 10;
        assert(p_digits(s, acc) == p_digits(seq![d] + rest, acc1));
        let sd = seq![d] + rest;
        assert(sd[0] == d);
        assert(is_digit(d));
        assert(sd.drop_first() =~= rest);
        assert((d - DIGIT_ZERO) as nat == n % 10);
        assert(p_digits(sd, acc1) == p_digits(rest, acc1 * 10 + n % 10));
        assert(dec_digits(n).len() == k1 + 1);
        assert(pow10(k1 + 1) == 10 * pow10(k1));
        assert(acc1 * 10 + n % 10 == acc * pow10(k1 + 1) + n) by (nonlinear_arith)
            requires
                acc1 == acc * pow10(k1) + n / 10,
                pow10(k1 + 1) == 10 * pow10(k1),
                n == (n / 10) * 10 + n % 10,
        ;
        assert(n == (n / 10) * 10 + n % 10) by {
            vstd::arithmetic::div_mod::lemma_fundamental_div_mod(n as int, 10);
        }
    }
}

/// A number's decimal form at the front of the input parses back to that
/// number, when what follows does not begin with a digit.
proof fn lemma_p_number_roundtrip(n: nat, rest: Seq<u8>)
    requires
        rest.len() > 0 ==> !is_digit(rest[0]),
    ensures
        p_number(dec_digits(n) + rest) == Some((n, rest)),
{
    let s = dec_digits(n) + rest;
    lemma_dec_digits_shape(n);
    assert(s[0] == dec_digits(n)[0]);
    lemma_p_digits_roundtrip(n, rest, 0);
    assert(0 * pow10(dec_digits(n).len()) + n == n) by (nonlinear_arith);
    assert(p_digits(rest, n) == (n, rest));
}

/// An escaped path at the front of the input, with its closing quote, parses
/// back to the path.
proof fn lemma_p_string_roundtrip(path: Seq<u8>, rest: Seq<u8>)
    ensures
        p_string(esc_bytes(path) + (seq![QUOTE] + rest)) == Some((path, rest)),
    decreases path.len(),
{
    let s = esc_bytes(path) + (seq![QUOTE] + rest);
    if path.len() == 0 {
        assert(s =~= seq![QUOTE] + rest);
        assert(s[0] == QUOTE);
        assert(s.drop_first() =~= rest);
        assert(p_string(s) == Some((Seq::<u8>::empty(), rest)));
    } else {
        let b = path[0];
        let tail = path.drop_first();
        lemma_p_string_roundtrip(tail, rest);
        let s_tail = esc_bytes(tail) + (seq![QUOTE] + rest);
        if b == QUOTE || b == BACKSLASH {
            assert(s =~= seq![BACKSLASH, b] + s_tail);
            assert(s[0] == BACKSLASH);
            assert(s[1] == b);
            assert(s.len() >= 2);
            assert(s.skip(2) =~= s_tail);
            assert(seq![b] + tail =~= path);
        } else {
            assert(s =~= seq![b] + s_tail);
            assert(s[0] == b);
            assert(s.drop_first() =~= s_tail);
            assert(seq![b] + tail =~= path);
        }
    }
}

/// One entry's canonical form at the front of the input parses back to that
/// entry.
proof fn lemma_p_entry_roundtrip(g: GEntry, rest: Seq<u8>)
    ensures
        p_entry(ser_entry(g) + rest) == Some((g, rest)),
{
    let s = ser_entry(g) + rest;
    let x5 = seq![RBRACE] + rest;
    let x4 = dec_digits(g.start) + x5;
    let x3 = start_label() + x4;
    let x2 = dec_digits(g.size) + x3;
    let x1b = size_label() + x2;
    let x1 = esc_bytes(g.path) + (seq![QUOTE] + x1b);
    assert(s =~= entry_prefix() + x1);
    lemma_p_lit_roundtrip(entry_prefix(), x1);
    lemma_p_string_roundtrip(g.path, x1b);
    lemma_p_lit_roundtrip(size_label(), x2);
    assert(x3.len() > 0 && !is_digit(x3[0])) by {
        assert(x3[0] == start_label()[0]);
    }
    lemma_p_number_roundtrip(g.size, x3);
    lemma_p_lit_roundtrip(start_label(), x4);
    assert(x5.len() > 0 && !is_digit(x5[0])) by {
        assert(x5[0] == RBRACE);
    }
    lemma_p_number_roundtrip(g.start, x5);
    lemma_p_lit_roundtrip(seq![RBRACE], rest);
    assert(p_entry(s) == Some((GEntry { path: g.path, size: g.size, start: g.start }, rest)));
    assert(GEntry { path: g.path, size: g.size, start: g.start } == g);
}

/// A serialized entry list at the front of the input parses back to that
/// list, when what follows does not begin with a comma.
#[verifier::rlimit(60)]
proof fn lemma_p_entries_roundtrip(ges: Seq<GEntry>, rest: Seq<u8>)
    requires
        ges.len() > 0,
        rest.len() > 0 ==> rest[0] != COMMA,
    ensures
        p_entries(ser_entries(ges) + rest) == Some((ges, rest)),
    decreases ges.len(),
{
    let s = ser_entries(ges) + rest;
    if ges.len() == 1 {
        lemma_p_entry_roundtrip(ges[0], rest);
        assert(p_entry(s) == Some((ges[0], rest)));
        assert(seq![ges[0]] =~= ges);
    } else {
        let tail = ges.drop_first();
        let s_tail = ser_entries(tail) + rest;
        assert(s =~= ser_entry(ges[0]) + (seq![COMMA] + s_tail));
        lemma_p_entry_roundtrip(ges[0], seq![COMMA] + s_tail);
        let mid = seq![COMMA] + s_tail;
        assert(mid[0] == COMMA && mid.len() > 0);
        assert(mid.drop_first() =~= s_tail);
        lemma_p_entries_roundtrip(tail, rest);
        assert(seq![ges[0]] + tail =~= ges);
    }
}

/// Round-trip: a saved manifest loads back to the same ordered entry list —
/// the same path, size and start for every entry, in the same order — for
/// any list of entries, duplicates included.
pub proof fn lemma_manifest_roundtrip(ges: Seq<GEntry>)
    ensures
        p_manifest(ser_manifest(ges)) == Some(ges),
{
    let s = ser_manifest(ges);
    let s1 = ser_entries(ges) + footer();
    assert(s =~= header() + s1);
    lemma_p_lit_roundtrip(header(), s1);
    if ges.len() == 0 {
        assert(s1 =~= footer());
    } else {
        assert(ser_entries(ges).len() > 0 && ser_entries(ges)[0] == 123) by {
            assert(ser_entry(ges[0])[0] == entry_prefix()[0]);
            assert(entry_prefix()[0] == 123);
        }
        assert(s1[0] == 123);
        assert(footer()[0] == 93);
        assert(s1 != footer());
        assert(footer().len() > 0 && footer()[0] != COMMA);
        lemma_p_entries_roundtrip(ges, footer());
    }
}

// ---------------------------------------------------------------------------
// The deserializer.
// ---------------------------------------------------------------------------

/// Whether every size and start in a parsed list fits the machine's word
/// size.
pub open spec fn entries_fit(ges: Seq<GEntry>) -> bool {
    forall|k: int|
        0 <= k < ges.len() ==> (#[trigger] ges[k]).size <= usize::MAX && ges[k].start <= usize::MAX
}

/// The document's opening, as bytes.
fn lit_header() -> (r: Vec<u8>)
    ensures
        r@ == header(),
{
    let mut v: Vec<u8> = Vec::new();
    push_header(&mut v);
    proof {
        assert(v@ =~= header());
    }
    v
}

/// One entry's opening, as bytes.
fn lit_entry_prefix() -> (r: Vec<u8>)
    ensures
        r@ == entry_prefix(),
{
    let mut v: Vec<u8> = Vec::new();
    push_entry_prefix(&mut v);
    proof {
        assert(v@ =~= entry_prefix());
    }
    v
}

/// The label between the path and the size, as bytes.
fn lit_size_label() -> (r: Vec<u8>)
    ensures
        r@ == size_label(),
{
    let mut v: Vec<u8> = Vec::new();
    push_size_label(&mut v);
    proof {
        assert(v@ =~= size_label());
    }
    v
}

/// The label between the size and the start, as bytes.
fn lit_start_label() -> (r: Vec<u8>)
    ensures
        r@ == start_label(),
{
    let mut v: Vec<u8> = Vec::new();
    push_start_label(&mut v);
    proof {
        assert(v@ =~= start_label());
    }
    v
}

/// Check one literal at position `i`; on a match, the position after it.
fn parse_lit(data: &Vec<u8>, i: usize, lit: &Vec<u8>) -> (r: Option<usize>)
    requires
        i <= data@.len(),
    ensures
        match r {
            Some(j) => {
                &&& p_lit(data@.skip(i as int), lit@) == Some(data@.skip(j as int))
                &&& j == i + lit@.len()
                &&& i <= j <= data@.len()
            },
            None => p_lit(data@.skip(i as int), lit@) is None,
        },
{
    if data.len() - i < lit.len() {
        return None;
    }
    let mut k: usize = 0;
    while k < lit.len()
        invariant
            k <= lit@.len(),
            i + lit@.len() <= data@.len(),
            data@.len() <= usize::MAX,
            forall|t: int| 0 <= t < k ==> data@[i + t] == lit@[t],
        decreases lit@.len() - k,
    {
        if data[i + k] != lit[k] {
            proof {
                let s = data@.skip(i as int);
                assert(s[k as int] == data@[i + k]);
                if starts_with(s, lit@) {
                    assert(s.take(lit@.len() as int)[k as int] == lit@[k as int]);
                    assert(false);
                }
            }
            return None;
        }
        k = k + 1;
    }
    proof {
        let s = data@.skip(i as int);
        assert(s.take(lit@.len() as int) =~= lit@);
        assert(s.skip(lit@.len() as int) =~= data@.skip(i + lit@.len()));
    }
    Some(i + lit.len())
}

/// The folded value of the digits still ahead is never below the value
/// accumulated so far.
proof fn lemma_p_digits_lower(s: Seq<u8>, acc: nat)
    ensures
        p_digits(s, acc).0 >= acc,
    decreases s.len(),
{
    if s.len() > 0 && is_digit(s[0]) {
        let acc2 = acc * 10 + (s[0] - DIGIT_ZERO) as nat;
        assert(acc * 10 >= acc) by (nonlinear_arith);
        lemma_p_digits_lower(s.drop_first(), acc2);
    }
}

/// Read a decimal number at position `i`. Fails with a parse error when no
/// digit stands there, and with an overflow error when the number does not
/// fit the machine's word size.
fn parse_number(data: &Vec<u8>, i: usize) -> (r: Result<(usize, usize), Error>)
    requires
        i <= data@.len(),
    ensures
        match r {
            Ok(vj) => {
                &&& p_number(data@.skip(i as int)) == Some(
                    ((vj.0 as nat), data@.skip(vj.1 as int)),
                )
                &&& i < vj.1 <= data@.len()
            },
            Err(e) => {
                &&& (e == Error::Parse || e == Error::Overflow)
                &&& (e == Error::Parse ==> p_number(data@.skip(i as int)) is None)
                &&& (e == Error::Overflow ==> (p_number(data@.skip(i as int)) matches Some(vr)
                    && vr.0 > usize::MAX))
            },
        },
{
    if i >= data.len() || data[i] < DIGIT_ZERO || data[i] > 57 {
        proof {
            let s = data@.skip(i as int);
            if i < data@.len() {
                assert(s[0] == data@[i as int]);
            }
        }
        return Err(Error::Parse);
    }
    let ghost s0 = data@.skip(i as int);
    let mut val: usize = 0;
    let mut j: usize = i;
    while j < data.len() && data[j] >= DIGIT_ZERO && data[j] <= 57
        invariant
            i <= j <= data@.len(),
            p_digits(s0, 0) == p_digits(data@.skip(j as int), val as nat),
            j > i || val == 0,
            s0 == data@.skip(i as int),
            i < data@.len() && is_digit(data@[i as int]),
        decreases data@.len() - j,
    {
        let d: u8 = data[j] - DIGIT_ZERO;
        proof {
            let s = data@.skip(j as int);
            assert(s[0] == data@[j as int]);
            assert(s.drop_first() =~= data@.skip(j + 1));
            assert(p_digits(s, val as nat) == p_digits(
                data@.skip(j + 1),
                (val as nat) * 10 + d as nat,
            ));
        }
        let big = match val.checked_mul(10) {
            None => {
                proof {
                    lemma_p_digits_lower(data@.skip(j + 1), (val as nat) * 10 + d as nat);
                }
                return Err(Error::Overflow);
            },
            Some(b) => b,
        };
        let big2 = match big.checked_add(d as usize) {
            None => {
                proof {
                    lemma_p_digits_lower(data@.skip(j + 1), (val as nat) * 10 + d as nat);
                }
                return Err(Error::Overflow);
            },
            Some(b) => b,
        };
        val = big2;
        j = j + 1;
    }
    proof {
        let s = data@.skip(j as int);
        if j < data@.len() {
            assert(s[0] == data@[j as int]);
        }
        assert(p_digits(s, val as nat) == ((val as nat), s));
        assert(s0[0] == data@[i as int]);
    }
    Ok((val, j))
}

/// Read a string body at position `i`, up to and including its closing
/// quote, undoing the escaping.
fn parse_string(data: &Vec<u8>, i: usize) -> (r: Result<(Vec<u8>, usize), Error>)
    requires
        i <= data@.len(),
    ensures
        match r {
            Ok(pj) => {
                &&& p_string(data@.skip(i as int)) == Some((pj.0@, data@.skip(pj.1 as int)))
                &&& i < pj.1 <= data@.len()
            },
            Err(e) => {
                &&& e == Error::Parse
                &&& p_string(data@.skip(i as int)) is None
            },
        },
{
    let mut out: Vec<u8> = Vec::new();
    let mut j: usize = i;
    loop
        invariant
            i <= j <= data@.len(),
            p_string(data@.skip(i as int)) == (match p_string(data@.skip(j as int)) {
                Some(pr) => Some((out@ + pr.0, pr.1)),
                None => None::<(Seq<u8>, Seq<u8>)>,
            }),
        decreases data@.len() - j,
    {
        proof {
            let s = data@.skip(j as int);
            if j < data@.len() {
                assert(s[0] == data@[j as int]);
                if j + 1 < data@.len() {
                    assert(s[1] == data@[j + 1]);
                }
            }
        }
        if j >= data.len() {
            return Err(Error::Parse);
        }
        let b = data[j];
        if b == QUOTE {
            proof {
                let s = data@.skip(j as int);
                assert(s.drop_first() =~= data@.skip(j + 1));
                assert(out@ + Seq::<u8>::empty() =~= out@);
            }
            return Ok((out, j + 1));
        }
        if b == BACKSLASH {
            if j + 1 >= data.len() {
                proof {
                    let s = data@.skip(j as int);
                    assert(s.len() < 2);
                }
                return Err(Error::Parse);
            }
            let c = data[j + 1];
            if c != QUOTE && c != BACKSLASH {
                return Err(Error::Parse);
            }
            let ghost old_out = out@;
            out.push(c);
            proof {
                let s = data@.skip(j as int);
                assert(s.skip(2) =~= data@.skip(j + 2));
                match p_string(data@.skip(j + 2)) {
                    Some(pr) => {
                        assert(old_out + (seq![c] + pr.0) =~= out@ + pr.0);
                    },
                    None => {},
                }
            }
            j = j + 2;
        } else {
            let ghost old_out = out@;
            out.push(b);
            proof {
                let s = data@.skip(j as int);
                assert(s.drop_first() =~= data@.skip(j + 1));
                match p_string(data@.skip(j + 1)) {
                    Some(pr) => {
                        assert(old_out + (seq![b] + pr.0) =~= out@ + pr.0);
                    },
                    None => {},
                }
            }
            j = j + 1;
        }
    }
}

/// Read one entry at position `i`.
fn parse_entry(data: &Vec<u8>, i: usize) -> (r: Result<(FileEntry, usize), Error>)
    requires
        i <= data@.len(),
    ensures
        match r {
            Ok(ej) => {
                &&& p_entry(data@.skip(i as int)) == Some((ej.0.model(), data@.skip(ej.1 as int)))
                &&& i < ej.1 <= data@.len()
            },
            Err(e) => {
                &&& (e == Error::Parse || e == Error::Overflow)
                &&& (e == Error::Parse ==> p_entry(data@.skip(i as int)) is None)
                &&& (e == Error::Overflow ==> (p_entry(data@.skip(i as int)) matches Some(gr)
                    ==> gr.0.size > usize::MAX || gr.0.start > usize::MAX))
            },
        },
{
    let prefix = lit_entry_prefix();
    let j1 = match parse_lit(data, i, &prefix) {
        None => {
            return Err(Error::Parse);
        },
        Some(j) => j,
    };
    let (path, j2) = match parse_string(data, j1) {
        Err(_) => {
            return Err(Error::Parse);
        },
        Ok(pj) => pj,
    };
    let slabel = lit_size_label();
    let j3 = match parse_lit(data, j2, &slabel) {
        None => {
            return Err(Error::Parse);
        },
        Some(j) => j,
    };
    let (size, j4) = match parse_number(data, j3) {
        Err(e) => {
            return Err(e);
        },
        Ok(vj) => vj,
    };
    let tlabel = lit_start_label();
    let j5 = match parse_lit(data, j4, &tlabel) {
        None => {
            return Err(Error::Parse);
        },
        Some(j) => j,
    };
    let (start, j6) = match parse_number(data, j5) {
        Err(e) => {
            return Err(e);
        },
        Ok(vj) => vj,
    };
    if j6 >= data.len() || data[j6] != RBRACE {
        proof {
            let s6 = data@.skip(j6 as int);
            if starts_with(s6, seq![RBRACE]) {
                assert(s6.take(1)[0] == s6[0]);
                assert(s6[0] == data@[j6 as int]);
                assert(false);
            }
        }
        return Err(Error::Parse);
    }
    proof {
        let s6 = data@.skip(j6 as int);
        assert(s6.take(1) =~= seq![RBRACE]);
        assert(s6.skip(1) =~= data@.skip(j6 + 1));
    }
    let entry = FileEntry { path, size, start };
    Ok((entry, j6 + 1))
}

/// Deserialize an ordered entry list from a document's bytes. Fails with a
/// parse error when the bytes are not in the expected structure, and with an
/// overflow error when a size or start does not fit the machine's word size;
/// every parsed document whose numbers fit is accepted.
pub fn load_manifest(data: &Vec<u8>) -> (r: Result<Vec<FileEntry>, Error>)
    ensures
        match r {
            Ok(m) => p_manifest(data@) == Some(models(m@)),
            Err(e) => {
                &&& (e == Error::Parse || e == Error::Overflow)
                &&& (e == Error::Parse ==> p_manifest(data@) is None)
                &&& (p_manifest(data@) matches Some(g) ==> !entries_fit(g))
            },
        },
{
    let hdr = lit_header();
    let j0 = match parse_lit(data, 0, &hdr) {
        None => {
            proof {
                assert(data@.skip(0) =~= data@);
            }
            return Err(Error::Parse);
        },
        Some(j) => j,
    };
    proof {
        assert(data@.skip(0) =~= data@);
    }
    if data.len() - j0 == 2 && data[j0] == RBRACK {
        if data[j0 + 1] == RBRACE {
            proof {
                assert(data@.skip(j0 as int) =~= footer());
                assert(models(Seq::<FileEntry>::empty()) =~= Seq::<GEntry>::empty());
            }
            let out: Vec<FileEntry> = Vec::new();
            proof {
                assert(models(out@) =~= Seq::<GEntry>::empty());
            }
            return Ok(out);
        }
    }
    proof {
        let s1 = data@.skip(j0 as int);
        if s1 == footer() {
            assert(s1.len() == 2);
            assert(s1[0] == data@[j0 as int] && s1[0] == 93);
            assert(s1[1] == data@[j0 + 1] && s1[1] == 125);
            assert(false);
        }
    }
    let mut out: Vec<FileEntry> = Vec::new();
    let mut j: usize = j0;
    proof {
        match p_entries(data@.skip(j0 as int)) {
            Some(lr) => {
                assert(models(out@) =~= Seq::<GEntry>::empty());
                assert(models(out@) + lr.0 =~= lr.0);
            },
            None => {},
        }
    }
    loop
        invariant
            j0 <= j <= data@.len(),
            p_lit(data@, header()) == Some(data@.skip(j0 as int)),
            data@.skip(j0 as int) != footer(),
            p_entries(data@.skip(j0 as int)) == (match p_entries(data@.skip(j as int)) {
                Some(lr) => Some((models(out@) + lr.0, lr.1)),
                None => None::<(Seq<GEntry>, Seq<u8>)>,
            }),
        decreases data@.len() - j,
    {
        let (entry, j2) = match parse_entry(data, j) {
            Err(e) => {
                proof {
                    if e == Error::Overflow {
                        match p_manifest(data@) {
                            Some(g) => {
                                let lr = p_entries(data@.skip(j as int)).unwrap();
                                let gr = p_entry(data@.skip(j as int)).unwrap();
                                assert(g == models(out@) + lr.0);
                                assert(lr.0[0] == gr.0);
                                assert(g[models(out@).len() as int] == gr.0);
                                assert(!entries_fit(g));
                            },
                            None => {},
                        }
                    }
                }
                return Err(e);
            },
            Ok(ej) => ej,
        };
        let ghost old_out = out@;
        if j2 < data.len() && data[j2] == COMMA {
            out.push(entry);
            proof {
                let s2 = data@.skip(j2 as int);
                assert(s2[0] == data@[j2 as int]);
                assert(s2.drop_first() =~= data@.skip(j2 + 1));
                assert(models(out@) =~= models(old_out).push(entry.model()));
                match p_entries(data@.skip(j2 + 1)) {
                    Some(lr) => {
                        assert(models(old_out) + (seq![entry.model()] + lr.0) =~= models(out@)
                            + lr.0);
                    },
                    None => {},
                }
            }
            j = j2 + 1;
        } else {
            out.push(entry);
            proof {
                let s2 = data@.skip(j2 as int);
                if s2.len() > 0 {
                    assert(s2[0] == data@[j2 as int]);
                }
                assert(models(out@) =~= models(old_out).push(entry.model()));
                assert(models(old_out) + seq![entry.model()] =~= models(out@));
                assert(p_entries(data@.skip(j0 as int)) == Some(
                    (models(out@), data@.skip(j2 as int)),
                ));
            }
            if data.len() - j2 == 2 && data[j2] == RBRACK {
                if data[j2 + 1] == RBRACE {
                    proof {
                        assert(data@.skip(j2 as int) =~= footer());
                    }
                    return Ok(out);
                }
            }
            proof {
                let s2 = data@.skip(j2 as int);
                if s2 == footer() {
                    assert(s2.len() == 2);
                    assert(s2[0] == data@[j2 as int] && s2[0] == 93);
                    assert(s2[1] == data@[j2 + 1] && s2[1] == 125);
                    assert(false);
                }
            }
            return Err(Error::Parse);
        }
    }
}

} // verus!
