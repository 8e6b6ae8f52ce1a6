use vstd::prelude::*;
use vstd::string::*;
use vstd::utf8::*;

use crate::parser_blc::{ascii, BIT_0, BIT_1};
use crate::printer::{blc_text, ones};
use crate::term::{closed_at, Term};

verus! {

/// Why a text is not the binary encoding of a list of bytes.
#[derive(Debug, Clone, Copy, PartialEq, Eq, Structural)]
pub enum ParseError {
    /// A list element that is neither the true nor the false term.
    NonBooleanValue,
    /// A byte whose eight bits are not followed by the empty list.
    UndelimitedList,
    /// Neither a list cell nor the empty list where one was due.
    BadListFormat,
}

/// The opening of a list cell: `λ λ 1 ? ?`, head and tail to follow.
pub open spec fn pair_blank() -> Seq<char> {
    seq!['0', '0', '0', '1', '0', '1', '1', '0']
}

/// The empty list, `λ λ 1`, which is also the false term.
pub open spec fn nil_text() -> Seq<char> {
    seq!['0', '0', '0', '0', '1', '0']
}

/// The true term, `λ λ 2`.
pub open spec fn true_text() -> Seq<char> {
    seq!['0', '0', '0', '0', '1', '1', '0']
}

/// Bit `j` of `x`, counted from the least significant one.
pub open spec fn bit(x: u8, j: u8) -> bool {
    (x >> j) & 1u8 == 1u8
}

/// The cells for bits `7 - i` down to `0` of `x`, then the empty list.
pub open spec fn bits_text(x: u8, i: nat) -> Seq<char>
    decreases 8 - i,
{
    if i >= 8 {
        nil_text()
    } else {
        pair_blank() + (if bit(x, (7 - i) as u8) {
            true_text()
        } else {
            nil_text()
        }) + bits_text(x, i + 1)
    }
}

/// The list of the eight bits of `x`, most significant first.
pub open spec fn byte_text(x: u8) -> Seq<char> {
    bits_text(x, 0)
}

/// The list of the byte lists of `b`.
pub open spec fn bytes_text(b: Seq<u8>) -> Seq<char>
    decreases b.len(),
{
    if b.len() == 0 {
        nil_text()
    } else {
        pair_blank() + byte_text(b[0]) + bytes_text(b.drop_first())
    }
}

/// `s` begins with `p`.
pub open spec fn starts_with(s: Seq<u8>, p: Seq<u8>) -> bool {
    p.len() <= s.len() && s.take(p.len() as int) == p
}

/// Reads bits `i` to `7` of a byte from the start of `s`, `acc` holding
/// the bits read so far; gives the byte and the bytes after its list.
pub open spec fn decode_bits(s: Seq<u8>, i: nat, acc: u8) -> Result<(u8, Seq<u8>), ParseError>
    decreases 8 - i,
{
    if i >= 8 {
        if starts_with(s, ascii(nil_text())) {
            Ok((acc, s.skip(6)))
        } else {
            Err(ParseError::UndelimitedList)
        }
    } else if starts_with(s, ascii(pair_blank() + true_text())) {
        decode_bits(s.skip(15), i + 1, (acc << 1u8) | 1u8)
    } else if starts_with(s, ascii(pair_blank() + nil_text())) {
        decode_bits(s.skip(14), i + 1, acc << 1u8)
    } else {
        Err(ParseError::NonBooleanValue)
    }
}

/// Reads a list of bytes that fills all of `s`.
pub open spec fn decode_list(s: Seq<u8>) -> Result<Seq<u8>, ParseError>
    decreases s.len(),
{
    if starts_with(s, ascii(pair_blank())) {
        match decode_bits(s.skip(8), 0, 0) {
            Ok((x, rest)) => if rest.len() < s.len() {
                match decode_list(rest) {
                    Ok(v) => Ok(seq![x] + v),
                    Err(e) => Err(e),
                }
            } else {
                Err(ParseError::BadListFormat)
            },
            Err(e) => Err(e),
        }
    } else if s == ascii(nil_text()) {
        Ok(seq![])
    } else {
        Err(ParseError::BadListFormat)
    }
}

fn append_bit(out: &mut String, b: bool)
    ensures
        final(out)@ == old(out)@ + pair_blank() + (if b {
            true_text()
        } else {
            nil_text()
        }),
{
    proof {
        reveal_strlit("000101100000110");
        reveal_strlit("00010110000010");
    }
    if b {
        out.append("000101100000110");
    } else {
        out.append("00010110000010");
    }
    assert(final(out)@ =~= old(out)@ + pair_blank() + (if b {
        true_text()
    } else {
        nil_text()
    }));
}

fn byte_to_blc(x: u8, out: &mut String)
    ensures
        final(out)@ == old(out)@ + byte_text(x),
{
    let mut i: u8 = 0;
    while i < 8
        invariant
            i <= 8,
            old(out)@ + byte_text(x) == out@ + bits_text(x, i as nat),
        decreases 8 - i,
    {
        let b = (x >> (7 - i)) & 1u8 == 1u8;
        append_bit(out, b);
        assert(bits_text(x, i as nat) == pair_blank() + (if b {
            true_text()
        } else {
            nil_text()
        }) + bits_text(x, (i + 1) as nat));
        assert(old(out)@ + byte_text(x) =~= out@ + bits_text(x, (i + 1) as nat));
        i = i + 1;
    }
    proof {
        reveal_strlit("000010");
    }
    out.append("000010");
    assert(final(out)@ =~= old(out)@ + byte_text(x));
}

/// The binary text of the list of the byte lists of `buf`.
pub fn bytes_to_blc(buf: &[u8]) -> (r: String)
    ensures
        r@ == bytes_text(buf@),
{
    let mut out = String::new();
    let mut i: usize = 0;
    assert(buf@.skip(0) =~= buf@);
    assert(bytes_text(buf@) =~= out@ + bytes_text(buf@.skip(0)));
    while i < buf.len()
        invariant
            i <= buf@.len(),
            bytes_text(buf@) == out@ + bytes_text(buf@.skip(i as int)),
        decreases buf@.len() - i,
    {
        proof {
            reveal_strlit("00010110");
            assert(buf@.skip(i as int).drop_first() =~= buf@.skip(i + 1));
        }
        out.append("00010110");
        byte_to_blc(buf[i], &mut out);
        assert(bytes_text(buf@) =~= out@ + bytes_text(buf@.skip(i + 1)));
        i = i + 1;
    }
    proof {
        reveal_strlit("000010");
    }
    out.append("000010");
    assert(out@ =~= bytes_text(buf@));
    out
}

pub(crate) fn starts_at(s: &[u8], pos: usize, p: &Vec<u8>) -> (r: bool)
    requires
        pos <= s@.len(),
    ensures
        r == starts_with(s@.skip(pos as int), p@),
        r ==> pos + p@.len() <= s@.len(),
{
    let n = s.len();
    if p.len() > n - pos {
        return false;
    }
    let mut i: usize = 0;
    while i < p.len()
        invariant
            i <= p@.len(),
            n == s@.len(),
            pos + p@.len() <= s@.len(),
            forall|j: int| 0 <= j < i ==> s@[pos + j] == p@[j],
        decreases p@.len() - i,
    {
        if s[pos + i] != p[i] {
            assert(s@.skip(pos as int).take(p@.len() as int)[i as int] != p@[i as int]);
            return false;
        }
        i = i + 1;
    }
    assert(s@.skip(pos as int).take(p@.len() as int) =~= p@);
    true
}

/// The byte patterns of the encoding.
struct Patterns {
    blank: Vec<u8>,
    pair_true: Vec<u8>,
    pair_false: Vec<u8>,
    nil: Vec<u8>,
}

impl Patterns {
    spec fn wf(&self) -> bool {
        &&& self.blank@ == ascii(pair_blank())
        &&& self.pair_true@ == ascii(pair_blank() + true_text())
        &&& self.pair_false@ == ascii(pair_blank() + nil_text())
        &&& self.nil@ == ascii(nil_text())
    }

    fn new() -> (r: Patterns)
        ensures
            r.wf(),
    {
        let blank = vec![BIT_0, BIT_0, BIT_0, BIT_1, BIT_0, BIT_1, BIT_1, BIT_0];
        let pair_true = vec![
            BIT_0, BIT_0, BIT_0, BIT_1, BIT_0, BIT_1, BIT_1, BIT_0,
            BIT_0, BIT_0, BIT_0, BIT_0, BIT_1, BIT_1, BIT_0,
        ];
        let pair_false = vec![
            BIT_0, BIT_0, BIT_0, BIT_1, BIT_0, BIT_1, BIT_1, BIT_0,
            BIT_0, BIT_0, BIT_0, BIT_0, BIT_1, BIT_0,
        ];
        let nil = vec![BIT_0, BIT_0, BIT_0, BIT_0, BIT_1, BIT_0];
        assert(blank@ =~= ascii(pair_blank()));
        assert(pair_true@ =~= ascii(pair_blank() + true_text()));
        assert(pair_false@ =~= ascii(pair_blank() + nil_text()));
        assert(nil@ =~= ascii(nil_text()));
        Patterns { blank, pair_true, pair_false, nil }
    }
}

fn blc_to_byte(s: &[u8], pos: usize, pats: &Patterns) -> (r: Result<(u8, usize), ParseError>)
    requires
        pos <= s@.len(),
        pats.wf(),
    ensures
        match r {
            Ok((x, p)) => pos < p <= s@.len() && decode_bits(s@.skip(pos as int), 0, 0) == Ok::<
                (u8, Seq<u8>),
                ParseError,
            >((x, s@.skip(p as int))),
            Err(e) => decode_bits(s@.skip(pos as int), 0, 0) == Err::<(u8, Seq<u8>), ParseError>(
                e,
            ),
        },
{
    let mut x: u8 = 0;
    let mut at: usize = pos;
    let mut i: u8 = 0;
    let n = s.len();
    while i < 8
        invariant
            i <= 8,
            n == s@.len(),
            pos <= at <= s@.len(),
            pats.wf(),
            at == pos || i > 0,
            decode_bits(s@.skip(pos as int), 0, 0) == decode_bits(s@.skip(at as int), i as nat, x),
        decreases 8 - i,
    {
        if starts_at(s, at, &pats.pair_true) {
            assert(s@.skip(at as int).skip(15) =~= s@.skip(at + 15));
            x = (x << 1u8) | 1u8;
            at = at + 15;
        } else if starts_at(s, at, &pats.pair_false) {
            assert(s@.skip(at as int).skip(14) =~= s@.skip(at + 14));
            x = x << 1u8;
            at = at + 14;
        } else {
            return Err(ParseError::NonBooleanValue);
        }
        i = i + 1;
    }
    if starts_at(s, at, &pats.nil) {
        assert(s@.skip(at as int).skip(6) =~= s@.skip(at + 6));
        Ok((x, at + 6))
    } else {
        Err(ParseError::UndelimitedList)
    }
}

/// Reads back a list of bytes from its binary text.
pub fn blc_to_bytes(data: &str) -> (r: Result<Vec<u8>, ParseError>)
    ensures
        match r {
            Ok(v) => decode_list(data.spec_bytes()) == Ok::<Seq<u8>, ParseError>(v@),
            Err(e) => decode_list(data.spec_bytes()) == Err::<Seq<u8>, ParseError>(e),
        },
{
    let s = data.as_bytes();
    let pats = Patterns::new();
    let mut out: Vec<u8> = Vec::new();
    let mut pos: usize = 0;
    let n = s.len();
    assert(s@.skip(0) =~= s@);
    loop
        invariant
            n == s@.len(),
            pos <= s@.len(),
            pats.wf(),
            s@ == data.spec_bytes(),
            decode_list(s@) == match decode_list(s@.skip(pos as int)) {
                Ok(v) => Ok(out@ + v),
                Err(e) => Err(e),
            },
        decreases s@.len() - pos,
    {
        if starts_at(s, pos, &pats.blank) {
            assert(s@.skip(pos as int).skip(8) =~= s@.skip(pos + 8));
            match blc_to_byte(s, pos + 8, &pats) {
                Ok((x, p)) => {
                    let ghost before = out@;
                    out.push(x);
                    proof {
                        match decode_list(s@.skip(p as int)) {
                            Ok(v) => {
                                assert(out@ + v =~= before + (seq![x] + v));
                            },
                            Err(e) => {},
                        }
                    }
                    pos = p;
                },
                Err(e) => {
                    return Err(e);
                },
            }
        } else if s.len() - pos == 6 && starts_at(s, pos, &pats.nil) {
            assert(s@.skip(pos as int) =~= s@.skip(pos as int).take(6));
            assert(out@ + seq![] =~= out@);
            return Ok(out);
        } else {
            proof {
                if s@.skip(pos as int) == ascii(nil_text()) {
                    assert(s@.skip(pos as int).take(6) =~= s@.skip(pos as int));
                }
            }
            return Err(ParseError::BadListFormat);
        }
    }
}

/// The bits of `x` above bit `8 - i`: what a reader has gathered after
/// `i` bits.
pub open spec fn high_bits(x: u8, i: nat) -> u8 {
    if i == 0 {
        0
    } else {
        x >> ((8 - i) as u8)
    }
}

proof fn lemma_ascii_concat(a: Seq<char>, b: Seq<char>)
    ensures
        ascii(a + b) =~= ascii(a) + ascii(b),
{
}

proof fn lemma_first_bit(x: u8)
    by (bit_vector)
    ensures
        (x >> 7u8) & 1u8 == 1u8 ==> ((0u8 << 1u8) | 1u8) == x >> 7u8,
        (x >> 7u8) & 1u8 != 1u8 ==> (0u8 << 1u8) == x >> 7u8,
{
}

proof fn lemma_next_bit(x: u8, j: u8)
    by (bit_vector)
    requires
        1 <= j <= 7,
    ensures
        (x >> ((j - 1) as u8)) & 1u8 == 1u8 ==> (((x >> j) << 1u8) | 1u8) == x >> ((j - 1) as u8),
        (x >> ((j - 1) as u8)) & 1u8 != 1u8 ==> ((x >> j) << 1u8) == x >> ((j - 1) as u8),
{
}

proof fn lemma_all_bits(x: u8)
    by (bit_vector)
    ensures
        x >> 0u8 == x,
{
}

proof fn lemma_decode_bits(x: u8, i: nat, rest: Seq<u8>)
    requires
        i <= 8,
    ensures
        decode_bits(ascii(bits_text(x, i)) + rest, i, high_bits(x, i)) == Ok::<
            (u8, Seq<u8>),
            ParseError,
        >((x, rest)),
    decreases 8 - i,
{
    let s = ascii(bits_text(x, i)) + rest;
    if i == 8 {
        assert(s.take(6) =~= ascii(nil_text()));
        assert(s.skip(6) =~= rest);
        lemma_all_bits(x);
    } else {
        let b = bit(x, (7 - i) as u8);
        let piece = if b {
            true_text()
        } else {
            nil_text()
        };
        let tail = ascii(bits_text(x, i + 1)) + rest;
        lemma_ascii_concat(pair_blank() + piece, bits_text(x, i + 1));
        assert(s =~= ascii(pair_blank() + piece) + tail);
        if i == 0 {
            lemma_first_bit(x);
        } else {
            lemma_next_bit(x, (8 - i) as u8);
        }
        lemma_decode_bits(x, i + 1, rest);
        if b {
            assert(s.take(15) =~= ascii(pair_blank() + true_text()));
            assert(s.skip(15) =~= tail);
        } else {
            assert(s[13] != ascii(pair_blank() + true_text())[13]);
            if s.len() >= 15 {
                assert(s.take(15)[13] != ascii(pair_blank() + true_text())[13]);
            }
            assert(s.take(14) =~= ascii(pair_blank() + nil_text()));
            assert(s.skip(14) =~= tail);
        }
    }
}

proof fn lemma_decode_list(b: Seq<u8>)
    ensures
        decode_list(ascii(bytes_text(b))) == Ok::<Seq<u8>, ParseError>(b),
    decreases b.len(),
{
    let s = ascii(bytes_text(b));
    if b.len() == 0 {
        assert(!starts_with(s, ascii(pair_blank())));
        assert(b =~= Seq::<u8>::empty());
    } else {
        let tail = b.drop_first();
        let rest = ascii(bytes_text(tail));
        lemma_ascii_concat(pair_blank() + byte_text(b[0]), bytes_text(tail));
        lemma_ascii_concat(pair_blank(), byte_text(b[0]));
        assert(s =~= ascii(pair_blank()) + ascii(byte_text(b[0])) + rest);
        assert(s.take(8) =~= ascii(pair_blank()));
        assert(s.skip(8) =~= ascii(bits_text(b[0], 0)) + rest);
        lemma_decode_bits(b[0], 0, rest);
        assert(high_bits(b[0], 0) == 0);
        assert(decode_bits(s.skip(8), 0, 0) == Ok::<(u8, Seq<u8>), ParseError>((b[0], rest)));
        lemma_decode_list(tail);
        assert(seq![b[0]] + tail =~= b);
    }
}

proof fn lemma_pieces_ascii()
    ensures
        is_ascii_chars(pair_blank()),
        is_ascii_chars(nil_text()),
        is_ascii_chars(true_text()),
{
}

proof fn lemma_bits_text_ascii(x: u8, i: nat)
    ensures
        is_ascii_chars(bits_text(x, i)),
    decreases 8 - i,
{
    broadcast use is_ascii_chars_concat;

    lemma_pieces_ascii();
    if i < 8 {
        lemma_bits_text_ascii(x, i + 1);
        let piece = if bit(x, (7 - i) as u8) {
            true_text()
        } else {
            nil_text()
        };
        assert(is_ascii_chars(pair_blank() + piece));
        assert(is_ascii_chars(pair_blank() + piece + bits_text(x, i + 1)));
    }
}

proof fn lemma_bytes_text_ascii(b: Seq<u8>)
    ensures
        is_ascii_chars(bytes_text(b)),
    decreases b.len(),
{
    broadcast use is_ascii_chars_concat;

    lemma_pieces_ascii();
    if b.len() > 0 {
        lemma_bytes_text_ascii(b.drop_first());
        lemma_bits_text_ascii(b[0], 0);
        assert(is_ascii_chars(pair_blank() + byte_text(b[0])));
        assert(is_ascii_chars(pair_blank() + byte_text(b[0]) + bytes_text(b.drop_first())));
    }
}

/// Decoding the encoding of any bytes gives the bytes back.
pub proof fn lemma_codec_round_trip(b: Seq<u8>)
    ensures
        decode_list(encode_utf8(bytes_text(b))) == Ok::<Seq<u8>, ParseError>(b),
{
    lemma_bytes_text_ascii(b);
    is_ascii_chars_encode_utf8(bytes_text(b));
    assert(encode_utf8(bytes_text(b)) =~= ascii(bytes_text(b)));
    lemma_decode_list(b);
}

/// A list cell, `λ 1 h t`: applied to a selector, it applies it to the
/// head and the tail.
pub open spec fn cell(h: Term, t: Term) -> Term {
    Term::Lam(Box::new(Term::App(Box::new((Term::App(Box::new((Term::Var(0), h))), t)))))
}

/// The empty list `λ λ 1`, which is also the false term.
pub open spec fn nil_term() -> Term {
    Term::Lam(Box::new(Term::Lam(Box::new(Term::Var(0)))))
}

/// The true term `λ λ 2`.
pub open spec fn true_term() -> Term {
    Term::Lam(Box::new(Term::Lam(Box::new(Term::Var(1)))))
}

/// The list of the booleans for bits `7 - i` down to `0` of `x`.
pub open spec fn bits_term(x: u8, i: nat) -> Term
    decreases 8 - i,
{
    if i >= 8 {
        nil_term()
    } else {
        cell(
            if bit(x, (7 - i) as u8) {
                true_term()
            } else {
                nil_term()
            },
            bits_term(x, i + 1),
        )
    }
}

/// The list of the byte lists of `b`.
pub open spec fn bytes_term(b: Seq<u8>) -> Term
    decreases b.len(),
{
    if b.len() == 0 {
        nil_term()
    } else {
        cell(bits_term(b[0], 0), bytes_term(b.drop_first()))
    }
}

proof fn lemma_cell_text(h: Term, t: Term)
    ensures
        blc_text(cell(h, t)) =~= pair_blank() + blc_text(h) + blc_text(t),
{
    assert(ones(1) =~= seq!['1']) by {
        assert(ones(0) =~= Seq::<char>::empty());
    }
    assert(blc_text(Term::Var(0)) =~= seq!['1', '0']);
    let inner = Term::App(Box::new((Term::Var(0), h)));
    let body = Term::App(Box::new((inner, t)));
    assert(blc_text(inner) =~= seq!['0', '1'] + seq!['1', '0'] + blc_text(h));
    assert(blc_text(body) =~= seq!['0', '1'] + blc_text(inner) + blc_text(t));
    assert(blc_text(cell(h, t)) =~= seq!['0', '0'] + blc_text(body));
}

proof fn lemma_cell_closed(h: Term, t: Term)
    requires
        closed_at(h, 0),
        closed_at(t, 0),
    ensures
        closed_at(cell(h, t), 0),
{
    lemma_closed_more(h, 0, 1);
    lemma_closed_more(t, 0, 1);
    let inner = Term::App(Box::new((Term::Var(0), h)));
    let body = Term::App(Box::new((inner, t)));
    assert(closed_at(Term::Var(0), 1));
    assert(closed_at(inner, 1));
    assert(closed_at(body, 1));
}

proof fn lemma_constant_texts()
    ensures
        blc_text(nil_term()) =~= nil_text(),
        blc_text(true_term()) =~= true_text(),
        closed_at(nil_term(), 0),
        closed_at(true_term(), 0),
{
    assert(ones(1) =~= seq!['1']) by {
        assert(ones(0) =~= Seq::<char>::empty());
    }
    assert(ones(2) =~= seq!['1', '1']);
    assert(blc_text(Term::Var(0)) =~= seq!['1', '0']);
    assert(blc_text(Term::Var(1)) =~= seq!['1', '1', '0']);
    let v0 = Term::Lam(Box::new(Term::Var(0)));
    let v1 = Term::Lam(Box::new(Term::Var(1)));
    assert(blc_text(v0) =~= seq!['0', '0', '1', '0']);
    assert(blc_text(v1) =~= seq!['0', '0', '1', '1', '0']);
    assert(closed_at(Term::Var(0), 2));
    assert(closed_at(v0, 1));
    assert(closed_at(Term::Var(1), 2));
    assert(closed_at(v1, 1));
}

proof fn lemma_bits_term(x: u8, i: nat)
    ensures
        blc_text(bits_term(x, i)) == bits_text(x, i),
        closed_at(bits_term(x, i), 0),
    decreases 8 - i,
{
    lemma_constant_texts();
    if i < 8 {
        lemma_bits_term(x, i + 1);
        let h = if bit(x, (7 - i) as u8) {
            true_term()
        } else {
            nil_term()
        };
        lemma_cell_text(h, bits_term(x, i + 1));
        lemma_cell_closed(h, bits_term(x, i + 1));
    }
}

/// The encoding of `b` is the text of a closed term: the list of its byte lists.
pub proof fn lemma_bytes_term(b: Seq<u8>)
    ensures
        blc_text(bytes_term(b)) == bytes_text(b),
        closed_at(bytes_term(b), 0),
    decreases b.len(),
{
    lemma_constant_texts();
    if b.len() > 0 {
        lemma_bytes_term(b.drop_first());
        lemma_bits_term(b[0], 0);
        lemma_cell_text(bits_term(b[0], 0), bytes_term(b.drop_first()));
        lemma_cell_closed(bits_term(b[0], 0), bytes_term(b.drop_first()));
    }
}

proof fn lemma_closed_more(t: Term, d: nat, e: nat)
    requires
        closed_at(t, d),
        d <= e,
    ensures
        closed_at(t, e),
    decreases t,
{
    match t {
        Term::Var(_) => {},
        Term::Lam(b) => lemma_closed_more(*b, d + 1, e + 1),
        Term::App(p) => {
            lemma_closed_more(p.0, d, e);
            lemma_closed_more(p.1, d, e);
        },
    }
}

} // verus!
