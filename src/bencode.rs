//! Bencoding: the length-prefixed serialisation of torrent metainfo files and
//! tracker replies.
use vstd::prelude::*;
use vstd::utf8::{decode_utf8, encode_utf8, valid_utf8};

verus! {

broadcast use vstd::utf8::encode_utf8_valid_utf8, vstd::utf8::encode_utf8_decode_utf8;

/// A decoded bencoded value.
///
/// Byte strings that are valid UTF-8 decode to `String`; any other byte
/// string is kept as raw `Bytes`. Dictionaries keep their pairs in the order
/// in which they were read.
#[derive(Debug, PartialEq, Eq, Hash)]
pub enum Bencode {
    String(String),
    Integer(i64),
    List(Vec<Bencode>),
    Dictionary(Vec<(Bencode, Bencode)>),
    Bytes(Vec<u8>),
}

/// The mathematical model of a bencoded value.
pub enum Term {
    Int(int),
    Text(Seq<char>),
    Raw(Seq<u8>),
    List(Seq<Term>),
    Dict(Seq<(Term, Term)>),
}

/// The model of a value.
pub open spec fn term_of(v: Bencode) -> Term
    decreases v,
{
    match v {
        Bencode::String(s) => Term::Text(s@),
        Bencode::Integer(n) => Term::Int(n as int),
        Bencode::Bytes(b) => Term::Raw(b@),
        Bencode::List(items) => Term::List(terms_of(items@)),
        Bencode::Dictionary(pairs) => Term::Dict(pair_terms_of(pairs@)),
    }
}

/// The models of a sequence of values.
pub open spec fn terms_of(s: Seq<Bencode>) -> Seq<Term>
    decreases s,
{
    if s.len() == 0 {
        Seq::empty()
    } else {
        seq![term_of(s[0])] + terms_of(s.drop_first())
    }
}

/// The models of a sequence of key/value pairs.
pub open spec fn pair_terms_of(s: Seq<(Bencode, Bencode)>) -> Seq<(Term, Term)>
    decreases s,
{
    if s.len() == 0 {
        Seq::empty()
    } else {
        seq![(term_of(s[0].0), term_of(s[0].1))] + pair_terms_of(s.drop_first())
    }
}

impl View for Bencode {
    type V = Term;

    open spec fn view(&self) -> Term {
        term_of(*self)
    }
}

// ---------------------------------------------------------------------------
// Encoding
// ---------------------------------------------------------------------------

/// Decimal text of a natural number, most significant digit first, with no
/// leading zero.
pub open spec fn nat_text(n: nat) -> Seq<u8>
    decreases n,
{
    if n < 10 {
        seq![(48 + n) as u8]
    } else {
        nat_text(n / 10) + seq![(48 + n % 10) as u8]
    }
}

/// Decimal text of an integer: a minus sign before the magnitude when negative.
pub open spec fn int_text(n: int) -> Seq<u8> {
    if n < 0 {
        seq![45u8] + nat_text((-n) as nat)
    } else {
        nat_text(n as nat)
    }
}

/// A length-prefixed byte string: `<decimal length>:<bytes>`.
pub open spec fn str_enc(b: Seq<u8>) -> Seq<u8> {
    nat_text(b.len()) + seq![58u8] + b
}

/// The bencoding of a term.
pub open spec fn enc(t: Term) -> Seq<u8>
    decreases t,
{
    match t {
        Term::Int(n) => seq![105u8] + int_text(n) + seq![101u8],
        Term::Text(cs) => str_enc(encode_utf8(cs)),
        Term::Raw(b) => str_enc(b),
        Term::List(items) => seq![108u8] + enc_list(items) + seq![101u8],
        Term::Dict(pairs) => seq![100u8] + enc_pairs(pairs) + seq![101u8],
    }
}

/// The concatenated encodings of the items of a list.
pub open spec fn enc_list(s: Seq<Term>) -> Seq<u8>
    decreases s,
{
    if s.len() == 0 {
        Seq::empty()
    } else {
        enc(s[0]) + enc_list(s.drop_first())
    }
}

/// The concatenated encodings of the keys and values of a dictionary.
pub open spec fn enc_pairs(s: Seq<(Term, Term)>) -> Seq<u8>
    decreases s,
{
    if s.len() == 0 {
        Seq::empty()
    } else {
        enc(s[0].0) + enc(s[0].1) + enc_pairs(s.drop_first())
    }
}

/// Relies on String::from_utf8: it succeeds exactly on valid UTF-8 and then
/// holds those very bytes; on failure the bytes are handed back unchanged.
#[verifier::external_body]
fn text_from_utf8(b: Vec<u8>) -> (r: Result<String, Vec<u8>>)
    ensures
        match r {
            Ok(s) => valid_utf8(b@) && encode_utf8(s@) == b@,
            Err(e) => !valid_utf8(b@) && e@ == b@,
        },
{
    String::from_utf8(b).map_err(|e| e.into_bytes())
}

/// Appends the decimal digits of `n` to `out`.
fn push_decimal(out: &mut Vec<u8>, n: u64)
    ensures
        final(out)@ == old(out)@ + nat_text(n as nat),
    decreases n,
{
    if n >= 10 {
        push_decimal(out, n / 10);
    }
    out.push((48 + n % 10) as u8);
    assert(final(out)@ =~= old(out)@ + nat_text(n as nat));
}

/// Appends the bytes of `b` to `out`.
fn push_all(out: &mut Vec<u8>, b: &[u8])
    ensures
        final(out)@ == old(out)@ + b@,
{
    let ghost start = out@;
    let mut k: usize = 0;
    while k < b.len()
        invariant
            k <= b@.len(),
            out@ == start + b@.subrange(0, k as int),
        decreases b@.len() - k,
    {
        out.push(b[k]);
        k = k + 1;
        assert(out@ =~= start + b@.subrange(0, k as int));
    }
    assert(b@.subrange(0, b@.len() as int) =~= b@);
}

/// Appending one term to a list appends its encoding.
proof fn lemma_enc_list_push(s: Seq<Term>, t: Term)
    ensures
        enc_list(s.push(t)) == enc_list(s) + enc(t),
    decreases s.len(),
{
    if s.len() == 0 {
        assert(s.push(t).drop_first() =~= Seq::<Term>::empty());
        assert(enc_list(s.push(t).drop_first()) == Seq::<u8>::empty());
        assert(enc_list(s) == Seq::<u8>::empty());
        assert(enc_list(s.push(t)) =~= enc(t));
    } else {
        assert(s.push(t).drop_first() =~= s.drop_first().push(t));
        lemma_enc_list_push(s.drop_first(), t);
        assert(enc_list(s.push(t)) =~= enc_list(s) + enc(t));
    }
}

/// Appending one pair to a dictionary appends its encoding.
proof fn lemma_enc_pairs_push(s: Seq<(Term, Term)>, p: (Term, Term))
    ensures
        enc_pairs(s.push(p)) == enc_pairs(s) + enc(p.0) + enc(p.1),
    decreases s.len(),
{
    if s.len() == 0 {
        assert(s.push(p).drop_first() =~= Seq::<(Term, Term)>::empty());
        assert(enc_pairs(s.push(p).drop_first()) == Seq::<u8>::empty());
        assert(enc_pairs(s) == Seq::<u8>::empty());
        assert(enc_pairs(s.push(p)) =~= enc(p.0) + enc(p.1));
    } else {
        assert(s.push(p).drop_first() =~= s.drop_first().push(p));
        lemma_enc_pairs_push(s.drop_first(), p);
        assert(enc_pairs(s.push(p)) =~= enc_pairs(s) + enc(p.0) + enc(p.1));
    }
}

/// The models of a prefix one longer are those of the shorter prefix and one more.
proof fn lemma_terms_of_take(s: Seq<Bencode>, k: int)
    requires
        0 <= k < s.len(),
    ensures
        terms_of(s.take(k + 1)) == terms_of(s.take(k)).push(term_of(s[k])),
    decreases k,
{
    if k == 0 {
        assert(s.take(1).drop_first() =~= Seq::<Bencode>::empty());
        assert(s.take(0) =~= Seq::<Bencode>::empty());
        assert(terms_of(s.take(1).drop_first()) == Seq::<Term>::empty());
        assert(terms_of(s.take(0)) == Seq::<Term>::empty());
        assert(terms_of(s.take(1)) =~= seq![term_of(s[0])]);
    } else {
        assert(s.take(k + 1).drop_first() =~= s.drop_first().take(k));
        assert(s.take(k).drop_first() =~= s.drop_first().take(k - 1));
        lemma_terms_of_take(s.drop_first(), k - 1);
        assert(terms_of(s.take(k + 1)) =~= terms_of(s.take(k)).push(term_of(s[k])));
    }
}

/// The models of a prefix of pairs one longer are those of the shorter prefix and one more.
proof fn lemma_pair_terms_of_take(s: Seq<(Bencode, Bencode)>, k: int)
    requires
        0 <= k < s.len(),
    ensures
        pair_terms_of(s.take(k + 1)) == pair_terms_of(s.take(k)).push(
            (term_of(s[k].0), term_of(s[k].1)),
        ),
    decreases k,
{
    if k == 0 {
        assert(s.take(1).drop_first() =~= Seq::<(Bencode, Bencode)>::empty());
        assert(s.take(0) =~= Seq::<(Bencode, Bencode)>::empty());
        assert(pair_terms_of(s.take(1).drop_first()) == Seq::<(Term, Term)>::empty());
        assert(pair_terms_of(s.take(0)) == Seq::<(Term, Term)>::empty());
        assert(pair_terms_of(s.take(1)) =~= seq![(term_of(s[0].0), term_of(s[0].1))]);
    } else {
        assert(s.take(k + 1).drop_first() =~= s.drop_first().take(k));
        assert(s.take(k).drop_first() =~= s.drop_first().take(k - 1));
        lemma_pair_terms_of_take(s.drop_first(), k - 1);
        assert(pair_terms_of(s.take(k + 1)) =~= pair_terms_of(s.take(k)).push(
            (term_of(s[k].0), term_of(s[k].1)),
        ));
    }
}

impl Bencode {
    /// Appends the bencoding of this value to `out`.
    fn encode_into(&self, out: &mut Vec<u8>)
        ensures
            final(out)@ == old(out)@ + enc(self@),
        decreases self,
    {
        let ghost start = out@;
        match self {
            Bencode::String(value) => {
                let bytes = value.as_str().as_bytes();
                push_decimal(out, bytes.len() as u64);
                out.push(58u8);
                push_all(out, bytes);
            },
            Bencode::Integer(value) => {
                out.push(105u8);
                if *value < 0 {
                    out.push(45u8);
                    let magnitude: u64 = if *value == i64::MIN {
                        9223372036854775808u64
                    } else {
                        (-*value) as u64
                    };
                    push_decimal(out, magnitude);
                } else {
                    push_decimal(out, *value as u64);
                }
                out.push(101u8);
            },
            Bencode::List(values) => {
                out.push(108u8);
                let ghost mid = out@;
                let mut k: usize = 0;
                while k < values.len()
                    invariant
                        k <= values@.len(),
                        self is List,
                        self->List_0 == *values,
                        out@ == mid + enc_list(terms_of(values@.take(k as int))),
                    decreases values@.len() - k,
                {
                    proof {
                        lemma_terms_of_take(values@, k as int);
                        lemma_enc_list_push(terms_of(values@.take(k as int)), term_of(values@[k as int]));
                    }
                    proof {
                        assert(decreases_to!(*self => self->List_0));
                        assert(decreases_to!(*values => values@));
                        assert(decreases_to!(values@ => values@[k as int]));
                        assert(decreases_to!(*self => values@[k as int]));
                    }
                    values[k].encode_into(out);
                    k = k + 1;
                }
                assert(values@.take(values@.len() as int) =~= values@);
                out.push(101u8);
            },
            Bencode::Dictionary(pairs) => {
                out.push(100u8);
                let ghost mid = out@;
                let mut k: usize = 0;
                while k < pairs.len()
                    invariant
                        k <= pairs@.len(),
                        self is Dictionary,
                        self->Dictionary_0 == *pairs,
                        out@ == mid + enc_pairs(pair_terms_of(pairs@.take(k as int))),
                    decreases pairs@.len() - k,
                {
                    proof {
                        lemma_pair_terms_of_take(pairs@, k as int);
                        lemma_enc_pairs_push(
                            pair_terms_of(pairs@.take(k as int)),
                            (term_of(pairs@[k as int].0), term_of(pairs@[k as int].1)),
                        );
                    }
                    proof {
                        assert(decreases_to!(*self => self->Dictionary_0));
                        assert(decreases_to!(*pairs => pairs@));
                        assert(decreases_to!(pairs@ => pairs@[k as int]));
                        assert(decreases_to!(pairs@[k as int] => pairs@[k as int].0));
                        assert(decreases_to!(pairs@[k as int] => pairs@[k as int].1));
                        assert(decreases_to!(*self => pairs@[k as int].0));
                        assert(decreases_to!(*self => pairs@[k as int].1));
                    }
                    let (key, value) = &pairs[k];
                    key.encode_into(out);
                    value.encode_into(out);
                    k = k + 1;
                }
                assert(pairs@.take(pairs@.len() as int) =~= pairs@);
                out.push(101u8);
            },
            Bencode::Bytes(value) => {
                push_decimal(out, value.len() as u64);
                out.push(58u8);
                push_all(out, value.as_slice());
            },
        }
        assert(out@ =~= start + enc(self@));
    }

    /// The bencoding of this value.
    pub fn to_bencode_bytes(&self) -> (r: Vec<u8>)
        ensures
            r@ == enc(self@),
    {
        let mut collector: Vec<u8> = Vec::new();
        self.encode_into(&mut collector);
        assert(collector@ =~= enc(self@));
        collector
    }
}

// ---------------------------------------------------------------------------
// Decoding
// ---------------------------------------------------------------------------

/// An ASCII decimal digit.
pub open spec fn is_digit(c: u8) -> bool {
    48 <= c <= 57
}

/// The first index at or after `i` that does not hold a digit.
pub open spec fn digit_run_end(b: Seq<u8>, i: int) -> int
    decreases b.len() - i,
{
    if 0 <= i < b.len() && is_digit(b[i]) {
        digit_run_end(b, i + 1)
    } else {
        i
    }
}

/// The number that a run of decimal digits denotes (leading zeros allowed).
pub open spec fn digits_value(d: Seq<u8>) -> nat
    decreases d.len(),
{
    if d.len() == 0 {
        0
    } else {
        (digits_value(d.drop_last()) * 10 + (d.last() - 48)) as nat
    }
}

/// The model of a decoded byte string: text when the bytes are valid UTF-8,
/// raw bytes otherwise.
pub open spec fn str_term(b: Seq<u8>) -> Term {
    if valid_utf8(b) {
        Term::Text(decode_utf8(b))
    } else {
        Term::Raw(b)
    }
}

/// A length-prefixed string starting at `i`: the term and the index after it.
pub open spec fn parse_str(b: Seq<u8>, i: int) -> Option<(Term, int)> {
    let j = digit_run_end(b, i);
    if i < 0 || j == i || j >= b.len() || b[j] != 58 {
        None
    } else {
        let n = digits_value(b.subrange(i, j));
        if j + 1 + n > b.len() {
            None
        } else {
            Some((str_term(b.subrange(j + 1, j + 1 + n)), j + 1 + n))
        }
    }
}

/// The body of an integer starting at `i` (just after the `i` tag): an
/// optional minus sign, at least one digit, the terminator `e`, and a value
/// that fits in 64 signed bits.
pub open spec fn parse_int(b: Seq<u8>, i: int) -> Option<(Term, int)> {
    let neg = 0 <= i < b.len() && b[i] == 45;
    let s = if neg { i + 1 } else { i };
    let k = digit_run_end(b, s);
    if i < 0 || k == s || k >= b.len() || b[k] != 101 {
        None
    } else {
        let m = digits_value(b.subrange(s, k)) as int;
        let v = if neg { -m } else { m };
        if i64::MIN <= v <= i64::MAX {
            Some((Term::Int(v), k + 1))
        } else {
            None
        }
    }
}

/// How many bytes are left from index `i` on.
pub open spec fn remaining(b: Seq<u8>, i: int) -> nat {
    if i < b.len() {
        (b.len() - i) as nat
    } else {
        0
    }
}

/// The value starting at `i`: the term and the index after it.
pub open spec fn parse_value(b: Seq<u8>, i: int) -> Option<(Term, int)>
    decreases remaining(b, i), 0nat,
{
    if i < 0 || i >= b.len() {
        None
    } else if b[i] == 100 {
        match parse_dict(b, i + 1) {
            Some((ps, j)) => Some((Term::Dict(ps), j)),
            None => None,
        }
    } else if b[i] == 108 {
        match parse_list(b, i + 1) {
            Some((items, j)) => Some((Term::List(items), j)),
            None => None,
        }
    } else if b[i] == 105 {
        parse_int(b, i + 1)
    } else if is_digit(b[i]) {
        parse_str(b, i)
    } else {
        None
    }
}

/// The items of a list body starting at `i`, up to and including the
/// terminator `e`, or up to the end of the input.
pub open spec fn parse_list(b: Seq<u8>, i: int) -> Option<(Seq<Term>, int)>
    decreases remaining(b, i), 1nat,
{
    if i < 0 {
        None
    } else if i >= b.len() {
        Some((Seq::empty(), i))
    } else if b[i] == 101 {
        Some((Seq::empty(), i + 1))
    } else {
        match parse_value(b, i) {
            None => None,
            Some((t, j)) => if j <= i {
                None
            } else {
                match parse_list(b, j) {
                    None => None,
                    Some((rest, k)) => Some((seq![t] + rest, k)),
                }
            },
        }
    }
}

/// The pairs of a dictionary body starting at `i`, up to and including the
/// terminator `e`. Every key is a length-prefixed string.
pub open spec fn parse_dict(b: Seq<u8>, i: int) -> Option<(Seq<(Term, Term)>, int)>
    decreases remaining(b, i), 1nat,
{
    if i < 0 || i >= b.len() {
        None
    } else if b[i] == 101 {
        Some((Seq::empty(), i + 1))
    } else {
        match parse_str(b, i) {
            None => None,
            Some((key, j)) => if j <= i {
                None
            } else {
                match parse_value(b, j) {
                    None => None,
                    Some((v, k)) => if k <= i {
                        None
                    } else {
                        match parse_dict(b, k) {
                            None => None,
                            Some((rest, e)) => Some((seq![(key, v)] + rest, e)),
                        }
                    },
                }
            },
        }
    }
}

/// The value that a byte string decodes to: the one at its start, whatever
/// follows it.
pub open spec fn decode(b: Seq<u8>) -> Option<Term> {
    match parse_value(b, 0) {
        Some((t, _)) => Some(t),
        None => None,
    }
}

/// The shape of a digit run.
proof fn lemma_digit_run(b: Seq<u8>, i: int)
    requires
        0 <= i <= b.len(),
    ensures
        i <= digit_run_end(b, i) <= b.len(),
        forall|m: int| i <= m < digit_run_end(b, i) ==> is_digit(#[trigger] b[m]),
        digit_run_end(b, i) < b.len() ==> !is_digit(b[digit_run_end(b, i)]),
    decreases b.len() - i,
{
    if i < b.len() && is_digit(b[i]) {
        lemma_digit_run(b, i + 1);
    }
}

/// More digits never denote a smaller number.
proof fn lemma_digits_mono(b: Seq<u8>, i: int, k: int, j: int)
    requires
        0 <= i <= k <= j <= b.len(),
        forall|m: int| i <= m < j ==> is_digit(#[trigger] b[m]),
    ensures
        digits_value(b.subrange(i, k)) <= digits_value(b.subrange(i, j)),
    decreases j - k,
{
    if k < j {
        lemma_digits_mono(b, i, k, j - 1);
        assert(b.subrange(i, j).drop_last() =~= b.subrange(i, j - 1));
    }
}

/// One more digit.
proof fn lemma_digits_step(b: Seq<u8>, i: int, k: int)
    requires
        0 <= i <= k < b.len(),
    ensures
        digits_value(b.subrange(i, k + 1)) == (digits_value(b.subrange(i, k)) * 10 + (b[k] - 48)) as nat,
{
    assert(b.subrange(i, k + 1).drop_last() =~= b.subrange(i, k));
}

/// The models of a sequence with one more value.
proof fn lemma_terms_of_push(s: Seq<Bencode>, v: Bencode)
    ensures
        terms_of(s.push(v)) == terms_of(s).push(term_of(v)),
{
    lemma_terms_of_take(s.push(v), s.len() as int);
    assert(s.push(v).take(s.len() as int) =~= s);
    assert(s.push(v).take(s.len() as int + 1) =~= s.push(v));
}

/// The models of a sequence of pairs with one more pair.
proof fn lemma_pair_terms_of_push(s: Seq<(Bencode, Bencode)>, p: (Bencode, Bencode))
    ensures
        pair_terms_of(s.push(p)) == pair_terms_of(s).push((term_of(p.0), term_of(p.1))),
{
    lemma_pair_terms_of_take(s.push(p), s.len() as int);
    assert(s.push(p).take(s.len() as int) =~= s);
    assert(s.push(p).take(s.len() as int + 1) =~= s.push(p));
}

/// Decodes the length-prefixed string that starts at `pos`.
fn decode_string(data: &[u8], pos: usize) -> (r: Option<(Bencode, usize)>)
    ensures
        match r {
            Some((v, e)) => parse_str(data@, pos as int) == Some((v@, e as int)),
            None => parse_str(data@, pos as int) is None,
        },
{
    let ghost b = data@;
    if pos > data.len() {
        return None;
    }
    proof {
        lemma_digit_run(b, pos as int);
    }
    let mut k: usize = pos;
    let mut n: usize = 0;
    while k < data.len() && 48 <= data[k] && data[k] <= 57
        invariant
            pos <= k <= data@.len(),
            digit_run_end(b, pos as int) == digit_run_end(b, k as int),
            pos <= digit_run_end(b, pos as int) <= b.len(),
            forall|m: int| pos <= m < digit_run_end(b, pos as int) ==> is_digit(#[trigger] b[m]),
            n as nat == digits_value(b.subrange(pos as int, k as int)),
            n <= data@.len(),
            b == data@,
        decreases data@.len() - k,
    {
        proof {
            lemma_digits_step(b, pos as int, k as int);
        }
        let next: u128 = n as u128 * 10 + (data[k] - 48) as u128;
        if next > data.len() as u128 {
            proof {
                lemma_digit_run(b, k + 1);
                lemma_digits_mono(b, pos as int, k + 1, digit_run_end(b, pos as int));
            }
            return None;
        }
        n = next as usize;
        k = k + 1;
    }
    if k == pos || k >= data.len() || data[k] != 58 {
        return None;
    }
    let start: usize = k + 1;
    if n > data.len() - start {
        return None;
    }
    let end: usize = start + n;
    let mut bytes: Vec<u8> = Vec::new();
    let mut m: usize = start;
    while m < end
        invariant
            start <= m <= end <= data@.len(),
            end == start + n,
            bytes@ == b.subrange(start as int, m as int),
            b == data@,
        decreases end - m,
    {
        bytes.push(data[m]);
        m = m + 1;
        assert(bytes@ =~= b.subrange(start as int, m as int));
    }
    match text_from_utf8(bytes) {
        Ok(text) => Some((Bencode::String(text), end)),
        Err(raw) => Some((Bencode::Bytes(raw), end)),
    }
}

/// Decodes the body of an integer that starts at `pos`, just after its tag.
fn decode_integer(data: &[u8], pos: usize) -> (r: Option<(Bencode, usize)>)
    ensures
        match r {
            Some((v, e)) => parse_int(data@, pos as int) == Some((v@, e as int)),
            None => parse_int(data@, pos as int) is None,
        },
{
    let ghost b = data@;
    if pos > data.len() {
        return None;
    }
    let neg = pos < data.len() && data[pos] == 45;
    let s: usize = if neg { pos + 1 } else { pos };
    proof {
        lemma_digit_run(b, s as int);
    }
    let mut k: usize = s;
    let mut magnitude: u64 = 0;
    while k < data.len() && 48 <= data[k] && data[k] <= 57
        invariant
            s <= k <= data@.len(),
            digit_run_end(b, s as int) == digit_run_end(b, k as int),
            s <= digit_run_end(b, s as int) <= b.len(),
            forall|m: int| s <= m < digit_run_end(b, s as int) ==> is_digit(#[trigger] b[m]),
            magnitude as nat == digits_value(b.subrange(s as int, k as int)),
            magnitude <= 9223372036854775808u64,
            pos <= data@.len(),
            neg == (pos < data@.len() && data@[pos as int] == 45),
            s == (if neg { pos + 1 } else { pos as int }),
            b == data@,
        decreases data@.len() - k,
    {
        proof {
            lemma_digits_step(b, s as int, k as int);
        }
        let next: u128 = magnitude as u128 * 10 + (data[k] - 48) as u128;
        if next > 9223372036854775808u128 {
            proof {
                lemma_digit_run(b, k + 1);
                lemma_digits_mono(b, s as int, k + 1, digit_run_end(b, s as int));
            }
            return None;
        }
        magnitude = next as u64;
        k = k + 1;
    }
    if k == s || k >= data.len() || data[k] != 101 {
        return None;
    }
    let value: i64 = if neg {
        if magnitude == 9223372036854775808u64 {
            i64::MIN
        } else {
            -(magnitude as i64)
        }
    } else {
        if magnitude > 9223372036854775807u64 {
            return None;
        }
        magnitude as i64
    };
    Some((Bencode::Integer(value), k + 1))
}

/// A list result with `acc` before its items.
pub open spec fn after_items(acc: Seq<Term>, r: Option<(Seq<Term>, int)>) -> Option<(Seq<Term>, int)> {
    match r {
        Some((rest, k)) => Some((acc + rest, k)),
        None => None,
    }
}

/// A dictionary result with `acc` before its pairs.
pub open spec fn after_pairs(acc: Seq<(Term, Term)>, r: Option<(Seq<(Term, Term)>, int)>) -> Option<
    (Seq<(Term, Term)>, int),
> {
    match r {
        Some((rest, k)) => Some((acc + rest, k)),
        None => None,
    }
}

/// Decodes the value that starts at `pos`; on success also the index after it.
fn decode_value(data: &[u8], pos: usize) -> (r: Option<(Bencode, usize)>)
    ensures
        match r {
            Some((v, e)) => parse_value(data@, pos as int) == Some((v@, e as int)),
            None => parse_value(data@, pos as int) is None,
        },
    decreases remaining(data@, pos as int), 0nat,
{
    if pos >= data.len() {
        return None;
    }
    let tag = data[pos];
    if tag == 100 {
        match decode_dictionary(data, pos + 1) {
            Some((pairs, e)) => Some((Bencode::Dictionary(pairs), e)),
            None => None,
        }
    } else if tag == 108 {
        match decode_list(data, pos + 1) {
            Some((items, e)) => Some((Bencode::List(items), e)),
            None => None,
        }
    } else if tag == 105 {
        decode_integer(data, pos + 1)
    } else if 48 <= tag && tag <= 57 {
        decode_string(data, pos)
    } else {
        None
    }
}

/// Decodes the body of a dictionary that starts at `pos`, just after its tag.
fn decode_dictionary(data: &[u8], pos: usize) -> (r: Option<(Vec<(Bencode, Bencode)>, usize)>)
    ensures
        match r {
            Some((pairs, e)) => parse_dict(data@, pos as int) == Some((pair_terms_of(pairs@), e as int)),
            None => parse_dict(data@, pos as int) is None,
        },
    decreases remaining(data@, pos as int), 1nat,
{
    let ghost b = data@;
    let mut dictionary: Vec<(Bencode, Bencode)> = Vec::new();
    let mut p: usize = pos;
    proof {
        assert(pair_terms_of(dictionary@) =~= Seq::<(Term, Term)>::empty());
        assert(after_pairs(Seq::empty(), parse_dict(b, p as int)) =~= parse_dict(b, pos as int));
    }
    loop
        invariant
            pos <= p,
            b == data@,
            after_pairs(pair_terms_of(dictionary@), parse_dict(b, p as int)) == parse_dict(b, pos as int),
        decreases remaining(b, p as int),
    {
        if p >= data.len() {
            return None;
        }
        if data[p] == 101 {
            proof {
                assert(pair_terms_of(dictionary@) + Seq::<(Term, Term)>::empty() =~= pair_terms_of(dictionary@));
            }
            return Some((dictionary, p + 1));
        }
        let (key, j) = match decode_string(data, p) {
            Some(found) => found,
            None => return None,
        };
        if j <= p {
            return None;
        }
        let (value, k) = match decode_value(data, j) {
            Some(found) => found,
            None => return None,
        };
        if k <= p {
            return None;
        }
        proof {
            let acc = pair_terms_of(dictionary@);
            lemma_pair_terms_of_push(dictionary@, (key, value));
            match parse_dict(b, k as int) {
                Some((rest, e)) => {
                    assert(acc.push((key@, value@)) + rest =~= acc + (seq![(key@, value@)] + rest));
                },
                None => {},
            }
        }
        dictionary.push((key, value));
        p = k;
    }
}

/// Decodes the body of a list that starts at `pos`, just after its tag.
fn decode_list(data: &[u8], pos: usize) -> (r: Option<(Vec<Bencode>, usize)>)
    ensures
        match r {
            Some((items, e)) => parse_list(data@, pos as int) == Some((terms_of(items@), e as int)),
            None => parse_list(data@, pos as int) is None,
        },
    decreases remaining(data@, pos as int), 1nat,
{
    let ghost b = data@;
    let mut list: Vec<Bencode> = Vec::new();
    let mut p: usize = pos;
    proof {
        assert(terms_of(list@) =~= Seq::<Term>::empty());
        assert(after_items(Seq::empty(), parse_list(b, p as int)) =~= parse_list(b, pos as int));
    }
    loop
        invariant
            pos <= p,
            b == data@,
            after_items(terms_of(list@), parse_list(b, p as int)) == parse_list(b, pos as int),
        decreases remaining(b, p as int),
    {
        if p >= data.len() || data[p] == 101 {
            proof {
                assert(terms_of(list@) + Seq::<Term>::empty() =~= terms_of(list@));
            }
            let e = if p >= data.len() { p } else { p + 1 };
            return Some((list, e));
        }
        let (value, j) = match decode_value(data, p) {
            Some(found) => found,
            None => return None,
        };
        if j <= p {
            return None;
        }
        proof {
            let acc = terms_of(list@);
            lemma_terms_of_push(list@, value);
            match parse_list(b, j as int) {
                Some((rest, e)) => {
                    assert(acc.push(value@) + rest =~= acc + (seq![value@] + rest));
                },
                None => {},
            }
        }
        list.push(value);
        p = j;
    }
}

/// Decodes the value at the start of `data`; bytes after it are ignored.
/// `None` when the bytes are not a well-formed value.
pub fn decode_bencode(data: &[u8]) -> (r: Option<Bencode>)
    ensures
        match r {
            Some(v) => decode(data@) == Some(v@),
            None => decode(data@) is None,
        },
{
    match decode_value(data, 0) {
        Some((v, _)) => Some(v),
        None => None,
    }
}

// ---------------------------------------------------------------------------
// Round trips
// ---------------------------------------------------------------------------

/// A term that decoding can give back: integers fit in 64 signed bits, raw
/// byte strings are not valid UTF-8 (valid ones decode as text), and every
/// dictionary key is a byte string.
pub open spec fn well_formed(t: Term) -> bool
    decreases t,
{
    match t {
        Term::Int(n) => i64::MIN <= n <= i64::MAX,
        Term::Text(_) => true,
        Term::Raw(b) => !valid_utf8(b),
        Term::List(items) => well_formed_list(items),
        Term::Dict(pairs) => well_formed_pairs(pairs),
    }
}

/// Every item is well formed.
pub open spec fn well_formed_list(s: Seq<Term>) -> bool
    decreases s,
{
    s.len() == 0 || (well_formed(s[0]) && well_formed_list(s.drop_first()))
}

/// Every key is a well-formed byte string and every value is well formed.
pub open spec fn well_formed_pairs(s: Seq<(Term, Term)>) -> bool
    decreases s,
{
    s.len() == 0 || ((s[0].0 is Text || s[0].0 is Raw) && well_formed(s[0].0) && well_formed(
        s[0].1,
    ) && well_formed_pairs(s.drop_first()))
}

/// A byte string in canonical form: the encoding of a well-formed term.
/// Its integers have no leading zeros and no `-0`, its lengths are exact, and
/// its lists and dictionaries are terminated.
pub open spec fn canonical(b: Seq<u8>) -> bool {
    exists|t: Term| well_formed(t) && enc(t) == b
}

/// Decimal text is a non-empty run of digits that denotes its number.
proof fn lemma_nat_text(n: nat)
    ensures
        nat_text(n).len() >= 1,
        forall|m: int| 0 <= m < nat_text(n).len() ==> is_digit(#[trigger] nat_text(n)[m]),
        digits_value(nat_text(n)) == n,
    decreases n,
{
    if n >= 10 {
        lemma_nat_text(n / 10);
        let t = nat_text(n);
        assert(t.drop_last() =~= nat_text(n / 10));
        assert(t.last() == (48 + n % 10) as u8);
        assert((n / 10) * 10 + n % 10 == n);
    } else {
        assert(nat_text(n).drop_last() =~= Seq::<u8>::empty());
        assert(digits_value(Seq::<u8>::empty()) == 0);
    }
}

/// A run of digits that stops at a non-digit.
proof fn lemma_run_to(b: Seq<u8>, i: int, j: int)
    requires
        0 <= i <= j < b.len(),
        forall|m: int| i <= m < j ==> is_digit(#[trigger] b[m]),
        !is_digit(b[j]),
    ensures
        digit_run_end(b, i) == j,
    decreases j - i,
{
    if i < j {
        lemma_run_to(b, i + 1, j);
    }
}

/// Decimal text placed at `i` and followed by a non-digit is read back.
proof fn lemma_read_decimal(b: Seq<u8>, i: int, n: nat)
    requires
        0 <= i,
        i + nat_text(n).len() < b.len(),
        b.subrange(i, i + nat_text(n).len()) == nat_text(n),
        !is_digit(b[i + nat_text(n).len()]),
    ensures
        digit_run_end(b, i) == i + nat_text(n).len(),
        digits_value(b.subrange(i, i + nat_text(n).len())) == n,
        is_digit(b[i]),
{
    lemma_nat_text(n);
    let d = nat_text(n);
    assert forall|m: int| i <= m < i + d.len() implies is_digit(#[trigger] b[m]) by {
        assert(b[m] == b.subrange(i, i + d.len())[m - i]);
    }
    assert(b[i] == b.subrange(i, i + d.len())[0]);
    lemma_run_to(b, i, i + d.len());
}

/// An encoding is never empty and never starts with the terminator `e`.
proof fn lemma_enc_head(t: Term)
    ensures
        enc(t).len() >= 1,
        enc(t)[0] != 101,
        (t is Text || t is Raw) ==> is_digit(enc(t)[0]),
{
    match t {
        Term::Text(cs) => {
            lemma_nat_text(encode_utf8(cs).len());
        },
        Term::Raw(r) => {
            lemma_nat_text(r.len());
        },
        _ => {},
    }
}

/// The bytes of `part`, found at offset `off` of `whole`, which stands at `i` in `b`.
proof fn lemma_slice(b: Seq<u8>, i: int, whole: Seq<u8>, off: int, part: Seq<u8>)
    requires
        0 <= i,
        i + whole.len() <= b.len(),
        b.subrange(i, i + whole.len()) == whole,
        0 <= off,
        off + part.len() <= whole.len(),
        whole.subrange(off, off + part.len()) == part,
    ensures
        b.subrange(i + off, i + off + part.len()) == part,
{
    assert(b.subrange(i + off, i + off + part.len()) =~= part) by {
        assert forall|m: int| 0 <= m < part.len() implies b.subrange(
            i + off,
            i + off + part.len(),
        )[m] == part[m] by {
            assert(b[i + off + m] == b.subrange(i, i + whole.len())[off + m]);
            assert(part[m] == whole.subrange(off, off + part.len())[m]);
        }
    }
}

/// A length-prefixed string is read back from its encoding.
proof fn lemma_parse_str_enc(r: Seq<u8>, b: Seq<u8>, i: int)
    requires
        0 <= i,
        i + str_enc(r).len() <= b.len(),
        b.subrange(i, i + str_enc(r).len()) == str_enc(r),
    ensures
        parse_str(b, i) == Some((str_term(r), i + str_enc(r).len())),
{
    let d = nat_text(r.len());
    let w = str_enc(r);
    lemma_nat_text(r.len());
    assert(w.subrange(0, d.len() as int) =~= d);
    lemma_slice(b, i, w, 0, d);
    assert(b[i + d.len()] == w[d.len() as int]);
    lemma_read_decimal(b, i, r.len());
    assert(w.subrange(d.len() as int + 1, d.len() as int + 1 + r.len() as int) =~= r);
    lemma_slice(b, i, w, d.len() as int + 1, r);
}

/// A well-formed term is read back from its encoding, wherever it stands
/// and whatever follows it.
proof fn lemma_parse_enc(t: Term, b: Seq<u8>, i: int)
    requires
        well_formed(t),
        0 <= i,
        i + enc(t).len() <= b.len(),
        b.subrange(i, i + enc(t).len()) == enc(t),
    ensures
        parse_value(b, i) == Some((t, i + enc(t).len())),
    decreases t, 0nat,
{
    let w = enc(t);
    assert(b[i] == w[0]);
    match t {
        Term::Int(n) => {
            let neg = n < 0;
            let mag: nat = if neg { (-n) as nat } else { n as nat };
            let d = nat_text(mag);
            let s = if neg { i + 2 } else { i + 1 };
            lemma_nat_text(mag);
            if neg {
                assert(b[i + 1] == w[1]);
                assert(w.subrange(2, 2 + d.len() as int) =~= d);
                lemma_slice(b, i, w, 2, d);
                assert(b[s + d.len()] == w[2 + d.len() as int]);
            } else {
                assert(w.subrange(1, 1 + d.len() as int) =~= d);
                lemma_slice(b, i, w, 1, d);
                assert(b[s + d.len()] == w[1 + d.len() as int]);
                assert(b[i + 1] == w[1]);
                assert(w[1] == d[0]);
            }
            lemma_read_decimal(b, s, mag);
        },
        Term::Text(cs) => {
            lemma_parse_str_enc(encode_utf8(cs), b, i);
            lemma_nat_text(encode_utf8(cs).len());
            assert(w[0] == nat_text(encode_utf8(cs).len())[0]);
        },
        Term::Raw(r) => {
            lemma_parse_str_enc(r, b, i);
            lemma_nat_text(r.len());
            assert(w[0] == nat_text(r.len())[0]);
        },
        Term::List(items) => {
            let body = enc_list(items);
            assert(w.subrange(1, 1 + body.len() as int) =~= body);
            lemma_slice(b, i, w, 1, body);
            assert(b[i + 1 + body.len() as int] == w[1 + body.len() as int]);
            lemma_parse_enc_list(items, b, i + 1);
        },
        Term::Dict(pairs) => {
            let body = enc_pairs(pairs);
            assert(w.subrange(1, 1 + body.len() as int) =~= body);
            lemma_slice(b, i, w, 1, body);
            assert(b[i + 1 + body.len() as int] == w[1 + body.len() as int]);
            lemma_parse_enc_pairs(pairs, b, i + 1);
        },
    }
}

/// The items of a well-formed list are read back from their encodings
/// followed by the terminator.
proof fn lemma_parse_enc_list(s: Seq<Term>, b: Seq<u8>, i: int)
    requires
        well_formed_list(s),
        0 <= i,
        i + enc_list(s).len() < b.len(),
        b.subrange(i, i + enc_list(s).len()) == enc_list(s),
        b[i + enc_list(s).len()] == 101,
    ensures
        parse_list(b, i) == Some((s, i + enc_list(s).len() + 1)),
    decreases s, 1nat,
{
    if s.len() == 0 {
        assert(s =~= Seq::<Term>::empty());
    } else {
        let w = enc_list(s);
        let h = enc(s[0]);
        let rest = enc_list(s.drop_first());
        assert(w.subrange(0, h.len() as int) =~= h);
        lemma_slice(b, i, w, 0, h);
        assert(w.subrange(h.len() as int, h.len() as int + rest.len()) =~= rest);
        lemma_slice(b, i, w, h.len() as int, rest);
        lemma_enc_head(s[0]);
        assert(b[i] == h[0]);
        lemma_parse_enc(s[0], b, i);
        lemma_parse_enc_list(s.drop_first(), b, i + h.len());
        assert(seq![s[0]] + s.drop_first() =~= s);
    }
}

/// The pairs of a well-formed dictionary are read back from their encodings
/// followed by the terminator.
proof fn lemma_parse_enc_pairs(s: Seq<(Term, Term)>, b: Seq<u8>, i: int)
    requires
        well_formed_pairs(s),
        0 <= i,
        i + enc_pairs(s).len() < b.len(),
        b.subrange(i, i + enc_pairs(s).len()) == enc_pairs(s),
        b[i + enc_pairs(s).len()] == 101,
    ensures
        parse_dict(b, i) == Some((s, i + enc_pairs(s).len() + 1)),
    decreases s, 1nat,
{
    if s.len() == 0 {
        assert(s =~= Seq::<(Term, Term)>::empty());
    } else {
        let w = enc_pairs(s);
        let k = enc(s[0].0);
        let v = enc(s[0].1);
        let rest = enc_pairs(s.drop_first());
        assert(w.subrange(0, k.len() as int) =~= k);
        lemma_slice(b, i, w, 0, k);
        assert(w.subrange(k.len() as int, k.len() as int + v.len()) =~= v);
        lemma_slice(b, i, w, k.len() as int, v);
        assert(w.subrange(k.len() as int + v.len(), k.len() as int + v.len() + rest.len()) =~= rest);
        lemma_slice(b, i, w, k.len() as int + v.len(), rest);
        lemma_enc_head(s[0].0);
        lemma_enc_head(s[0].1);
        assert(b[i] == k[0]);
        lemma_parse_enc(s[0].0, b, i);
        lemma_parse_enc(s[0].1, b, i + k.len());
        lemma_parse_enc_pairs(s.drop_first(), b, i + k.len() + v.len());
        assert(seq![s[0]] + s.drop_first() =~= s);
    }
}

/// Decoding the encoding of a well-formed value gives that value back.
pub proof fn lemma_decode_encode(v: Bencode)
    requires
        well_formed(v@),
    ensures
        decode(enc(v@)) == Some(v@),
{
    let w = enc(v@);
    assert(w.subrange(0, w.len() as int) =~= w);
    lemma_parse_enc(v@, w, 0);
}

/// A byte string in canonical form decodes, and encoding what it decodes to
/// gives back the very same bytes.
pub proof fn lemma_encode_decode(b: Seq<u8>)
    requires
        canonical(b),
    ensures
        decode(b) is Some,
        enc(decode(b)->0) == b,
{
    let t = choose|t: Term| well_formed(t) && enc(t) == b;
    assert(b.subrange(0, b.len() as int) =~= b);
    lemma_parse_enc(t, b, 0);
}

} // verus!
