//! Exchange codec for the clustering engine's file formats.
//!
//! Input format, one record per line: the sequence bytes, a tab, the
//! decimal weight, a line feed. Output format, one record per line,
//! whitespace-delimited: the cluster center, the aggregate count, and an
//! optional comma-joined member list.

use vstd::prelude::*;

verus! {

use crate::AlignError;
use crate::sequence_set::WeightedSequenceSet;
use crate::sequence_set::wf_entries;

/// A byte the output tokenizer treats as whitespace (ASCII).
pub open spec fn is_ws(b: u8) -> bool {
    b == 32 || b == 9 || b == 10 || b == 13 || b == 12
}

/// An ASCII decimal digit.
pub open spec fn is_digit(b: u8) -> bool {
    48 <= b && b <= 57
}

/// The views of a vector of byte vectors.
pub open spec fn views_of(vs: Seq<Vec<u8>>) -> Seq<Seq<u8>> {
    vs.map_values(|v: Vec<u8>| v@)
}

/// Splits `s` at every occurrence of `sep`. The separators themselves are
/// dropped and empty pieces are kept, so the result always holds one more
/// piece than `s` holds separators.
pub open spec fn split_on(s: Seq<u8>, sep: u8) -> Seq<Seq<u8>>
    decreases s.len(),
{
    if s.len() == 0 {
        seq![Seq::<u8>::empty()]
    } else if s[0] == sep {
        seq![Seq::<u8>::empty()] + split_on(s.skip(1), sep)
    } else {
        let rest = split_on(s.skip(1), sep);
        seq![seq![s[0]] + rest[0]] + rest.skip(1)
    }
}

pub proof fn lemma_split_on_len(s: Seq<u8>, sep: u8)
    ensures
        split_on(s, sep).len() >= 1,
    decreases s.len(),
{
    if s.len() == 0 {
    } else {
        lemma_split_on_len(s.skip(1), sep);
    }
}

/// A string without the separator is a single piece.
pub proof fn lemma_split_on_no_sep(s: Seq<u8>, sep: u8)
    requires
        forall|i: int| 0 <= i < s.len() ==> s[i] != sep,
    ensures
        split_on(s, sep) == seq![s],
    decreases s.len(),
{
    if s.len() == 0 {
        assert(split_on(s, sep) =~~= seq![s]);
    } else {
        lemma_split_on_no_sep(s.skip(1), sep);
        assert(seq![s[0]] + s.skip(1) =~= s);
        assert(split_on(s, sep) =~~= seq![s]);
    }
}

/// Splitting distributes over a separator: the pieces of `a`, then the
/// pieces of `b`.
pub proof fn lemma_split_on_append(a: Seq<u8>, b: Seq<u8>, sep: u8)
    ensures
        split_on(a + seq![sep] + b, sep) == split_on(a, sep) + split_on(b, sep),
    decreases a.len(),
{
    let s = a + seq![sep] + b;
    if a.len() == 0 {
        assert(s[0] == sep);
        assert(s.skip(1) =~= b);
        assert(split_on(s, sep) =~~= split_on(a, sep) + split_on(b, sep));
    } else {
        assert(s[0] == a[0]);
        lemma_split_on_append(a.skip(1), b, sep);
        assert(s.skip(1) =~= a.skip(1) + seq![sep] + b);
        if a[0] == sep {
            assert(split_on(s, sep) =~~= split_on(a, sep) + split_on(b, sep));
        } else {
            lemma_split_on_len(a.skip(1), sep);
            assert(split_on(s.skip(1), sep) == split_on(a.skip(1), sep) + split_on(b, sep));
            assert(split_on(s.skip(1), sep)[0] == split_on(a.skip(1), sep)[0]);
            assert(split_on(s.skip(1), sep).skip(1) =~= split_on(a.skip(1), sep).skip(1)
                + split_on(b, sep));
            assert(split_on(s, sep) =~~= split_on(a, sep) + split_on(b, sep));
        }
    }
}

/// Splitting at the first separator, at index `m`: one clean piece, then
/// the pieces of the remainder.
pub proof fn lemma_split_on_boundary(s: Seq<u8>, sep: u8, m: int)
    requires
        0 <= m <= s.len(),
        forall|k: int| 0 <= k < m ==> s[k] != sep,
        m == s.len() || s[m] == sep,
    ensures
        m == s.len() ==> split_on(s, sep) == seq![s],
        m < s.len() ==> split_on(s, sep) == seq![s.take(m)] + split_on(s.skip(m + 1), sep),
{
    if m == s.len() {
        lemma_split_on_no_sep(s, sep);
    } else {
        assert(s =~= s.take(m) + seq![sep] + s.skip(m + 1));
        assert(forall|k: int| 0 <= k < m ==> s.take(m)[k] == s[k]);
        lemma_split_on_no_sep(s.take(m), sep);
        lemma_split_on_append(s.take(m), s.skip(m + 1), sep);
    }
}

/// The whitespace-delimited tokens of a line, in order. Tokens are the
/// maximal runs of non-whitespace bytes; they are never empty.
pub open spec fn tokens_of(s: Seq<u8>) -> Seq<Seq<u8>>
    decreases s.len(),
{
    if s.len() == 0 {
        Seq::empty()
    } else if is_ws(s[0]) {
        tokens_of(s.skip(1))
    } else {
        let rest = tokens_of(s.skip(1));
        if s.len() == 1 || is_ws(s[1]) {
            seq![seq![s[0]]] + rest
        } else {
            seq![seq![s[0]] + rest[0]] + rest.skip(1)
        }
    }
}

/// Every token is a non-empty byte string without whitespace.
pub proof fn lemma_tokens_nonempty(s: Seq<u8>)
    ensures
        forall|i: int| 0 <= i < tokens_of(s).len() ==> (#[trigger] tokens_of(s)[i]).len() >= 1,
    decreases s.len(),
{
    if s.len() == 0 {
    } else {
        lemma_tokens_nonempty(s.skip(1));
        let rest = tokens_of(s.skip(1));
        if is_ws(s[0]) {
        } else if s.len() == 1 || is_ws(s[1]) {
            assert forall|i: int| 0 <= i < tokens_of(s).len()
                implies (#[trigger] tokens_of(s)[i]).len() >= 1 by {
                if i >= 1 {
                    assert(tokens_of(s)[i] == rest[i - 1]);
                }
            }
        } else {
            assert forall|i: int| 0 <= i < tokens_of(s).len()
                implies (#[trigger] tokens_of(s)[i]).len() >= 1 by {
                if i >= 1 {
                    assert(tokens_of(s)[i] == rest[i]);
                }
            }
        }
    }
}

/// A token that spans `s[0..m]` (no whitespace inside, whitespace or the
/// end at `m`) is the first token, and the rest follow after it.
pub proof fn lemma_tokens_boundary(s: Seq<u8>, m: int)
    requires
        1 <= m <= s.len(),
        forall|k: int| 0 <= k < m ==> !is_ws(s[k]),
        m == s.len() || is_ws(s[m]),
    ensures
        tokens_of(s) == seq![s.take(m)] + tokens_of(s.skip(m)),
    decreases m,
{
    if m == 1 {
        assert(tokens_of(s) =~~= seq![s.take(1)] + tokens_of(s.skip(1)));
    } else {
        assert(!is_ws(s[1]));
        lemma_tokens_boundary(s.skip(1), m - 1);
        let rest = tokens_of(s.skip(1));
        assert(s.skip(1).take(m - 1) =~= s.subrange(1, m));
        assert(s.skip(1).skip(m - 1) =~= s.skip(m));
        assert(rest == seq![s.subrange(1, m)] + tokens_of(s.skip(m)));
        assert(rest[0] == s.subrange(1, m));
        assert(seq![s[0]] + s.subrange(1, m) =~= s.take(m));
        assert(rest.skip(1) =~= tokens_of(s.skip(m)));
        assert(tokens_of(s) =~~= seq![s.take(m)] + tokens_of(s.skip(m)));
    }
}

/// The decimal digits of `n`, most significant first, no leading zeros
/// (zero itself is the single digit `0`).
pub open spec fn dec_rep(n: nat) -> Seq<u8>
    decreases n,
{
    if n < 10 {
        seq![(48 + n) as u8]
    } else {
        dec_rep(n / 10).push((48 + n % 10) as u8)
    }
}

/// The numeric value of a digit string, most significant first.
pub open spec fn digits_val(s: Seq<u8>) -> nat
    decreases s.len(),
{
    if s.len() == 0 {
        0
    } else {
        digits_val(s.drop_last()) * 10 + (s.last() - 48) as nat
    }
}

/// A count token with an optional leading plus sign stripped.
pub open spec fn count_body(s: Seq<u8>) -> Seq<u8> {
    if s.len() > 0 && s[0] == 43 {
        s.skip(1)
    } else {
        s
    }
}

/// Whether a count token parses as a non-negative integer: at least one
/// digit after the optional sign, digits throughout.
pub open spec fn count_ok(s: Seq<u8>) -> bool {
    &&& count_body(s).len() > 0
    &&& forall|i: int| 0 <= i < count_body(s).len() ==> is_digit(count_body(s)[i])
}

/// The numeric value of a count token.
pub open spec fn count_value(s: Seq<u8>) -> nat {
    digits_val(count_body(s))
}

/// A longer digit prefix never has a smaller value.
pub proof fn lemma_digits_val_prefix_monotonic(s: Seq<u8>, i: int, j: int)
    requires
        0 <= i <= j <= s.len(),
    ensures
        digits_val(s.take(i)) <= digits_val(s.take(j)),
    decreases j - i,
{
    if i < j {
        lemma_digits_val_prefix_monotonic(s, i, j - 1);
        assert(s.take(j).drop_last() =~= s.take(j - 1));
    }
}

/// The decimal representation renders digits only and parses back to the
/// number it was rendered from.
pub proof fn lemma_dec_rep_digits(n: nat)
    ensures
        dec_rep(n).len() >= 1,
        forall|i: int| 0 <= i < dec_rep(n).len() ==> is_digit(#[trigger] dec_rep(n)[i]),
        digits_val(dec_rep(n)) == n,
    decreases n,
{
    if n < 10 {
        let d: u8 = (48 + n) as u8;
        assert(48 + n < 256);
        assert(d == 48 + n);
        assert(dec_rep(n) =~= seq![d]);
        assert(seq![d].drop_last() =~= Seq::<u8>::empty());
        assert(digits_val(seq![d]) == digits_val(Seq::<u8>::empty()) * 10 + (d - 48) as nat);
        assert(digits_val(dec_rep(n)) == n);
    } else {
        lemma_dec_rep_digits(n / 10);
        assert(dec_rep(n).drop_last() =~= dec_rep(n / 10));
        assert(n % 10 < 10);
        assert(dec_rep(n).last() == (48 + n % 10) as u8);
        assert(((48 + n % 10) as u8 - 48) as nat == n % 10);
        assert(digits_val(dec_rep(n)) == (n / 10) * 10 + n % 10);
        assert(n / 10 * 10 + n % 10 == n) by (nonlinear_arith);
        assert forall|i: int| 0 <= i < dec_rep(n).len()
            implies is_digit(#[trigger] dec_rep(n)[i]) by {
            if i < dec_rep(n).len() - 1 {
                assert(dec_rep(n)[i] == dec_rep(n / 10)[i]);
            }
        }
    }
}

/// Parses a count token as a non-negative integer: an optional plus sign,
/// then decimal digits that fit in `usize`. Anything else — an empty or
/// missing token, a stray byte, a value too large — is no count.
pub fn parse_count(tok: &[u8]) -> (r: Option<usize>)
    ensures
        r is Some <==> count_ok(tok@) && count_value(tok@) <= usize::MAX,
        r matches Some(v) ==> v as nat == count_value(tok@),
{
    let ghost body = count_body(tok@);
    let start: usize = if tok.len() > 0 && tok[0] == 43 {
        1
    } else {
        0
    };
    proof {
        if tok@.len() > 0 && tok@[0] == 43 {
            assert(body =~= tok@.skip(1));
        }
        assert(body =~= tok@.skip(start as int));
        assert(body.take(0) =~= Seq::<u8>::empty());
    }
    if tok.len() == start {
        return None;
    }
    let mut acc: usize = 0;
    let mut i: usize = start;
    while i < tok.len()
        invariant
            start <= i <= tok@.len(),
            body == count_body(tok@),
            body == tok@.skip(start as int),
            body.len() == tok@.len() - start,
            forall|k: int| 0 <= k < i - start ==> is_digit(#[trigger] body[k]),
            acc as nat == digits_val(body.take(i - start)),
        decreases tok@.len() - i,
    {
        let b = tok[i];
        proof {
            assert(body[i - start] == tok@[i as int]);
        }
        if b < 48 || b > 57 {
            proof {
                assert(!is_digit(body[i - start]));
            }
            return None;
        }
        let d: usize = (b - 48) as usize;
        proof {
            assert(body.take(i - start + 1).drop_last() =~= body.take(i - start));
            assert(body.take(i - start + 1).last() == body[i - start]);
            assert(digits_val(body.take(i - start + 1)) == acc as nat * 10 + d);
        }
        let shifted = match acc.checked_mul(10) {
            Some(x) => x,
            None => {
                proof {
                    lemma_digits_val_prefix_monotonic(body, i - start + 1, body.len() as int);
                    assert(body.take(body.len() as int) =~= body);
                }
                return None;
            },
        };
        let next = match shifted.checked_add(d) {
            Some(x) => x,
            None => {
                proof {
                    lemma_digits_val_prefix_monotonic(body, i - start + 1, body.len() as int);
                    assert(body.take(body.len() as int) =~= body);
                }
                return None;
            },
        };
        acc = next;
        i = i + 1;
    }
    proof {
        assert(body.take(body.len() as int) =~= body);
    }
    Some(acc)
}

/// Appends a byte string.
fn push_bytes(out: &mut Vec<u8>, src: &[u8])
    ensures
        final(out)@ == old(out)@ + src@,
{
    let ghost base = out@;
    let mut i: usize = 0;
    proof {
        assert(out@ =~= base + src@.take(0));
    }
    while i < src.len()
        invariant
            i <= src@.len(),
            out@ == base + src@.take(i as int),
        decreases src@.len() - i,
    {
        out.push(src[i]);
        proof {
            assert(base + src@.take(i + 1) =~= (base + src@.take(i as int)).push(src@[i as int]));
        }
        i = i + 1;
    }
    proof {
        assert(src@.take(src@.len() as int) =~= src@);
    }
}

/// Appends the decimal digits of `n`.
pub fn push_decimal(out: &mut Vec<u8>, n: usize)
    ensures
        final(out)@ == old(out)@ + dec_rep(n as nat),
    decreases n,
{
    if n < 10 {
        out.push(48 + n as u8);
        proof {
            assert(out@ =~= old(out)@ + dec_rep(n as nat));
        }
    } else {
        push_decimal(out, n / 10);
        assert(n % 10 < 10);
        out.push(48 + (n % 10) as u8);
        proof {
            assert(out@ =~= old(out)@ + dec_rep(n as nat));
        }
    }
}

/// One encoded input record without its line terminator: the sequence
/// bytes, a tab, the decimal weight.
pub open spec fn entry_line(e: (Vec<u8>, usize)) -> Seq<u8> {
    e.0@ + seq![9u8] + dec_rep(e.1 as nat)
}

/// One encoded input record: the sequence bytes, a tab, the decimal
/// weight, a line feed. Embedded tabs or newlines in the sequence are not
/// escaped; the contract assumes the input contains neither.
pub open spec fn encoded_entry(e: (Vec<u8>, usize)) -> Seq<u8> {
    entry_line(e) + seq![10u8]
}

/// The encoded input stream: one record per entry, in entry order.
pub open spec fn encoded_entries(es: Seq<(Vec<u8>, usize)>) -> Seq<u8>
    decreases es.len(),
{
    if es.len() == 0 {
        Seq::empty()
    } else {
        encoded_entry(es[0]) + encoded_entries(es.skip(1))
    }
}

pub proof fn lemma_encoded_entries_append(a: Seq<(Vec<u8>, usize)>, b: Seq<(Vec<u8>, usize)>)
    ensures
        encoded_entries(a + b) == encoded_entries(a) + encoded_entries(b),
    decreases a.len(),
{
    if a.len() == 0 {
        assert(a + b =~= b);
        assert(encoded_entries(a) =~= Seq::<u8>::empty());
    } else {
        lemma_encoded_entries_append(a.skip(1), b);
        assert((a + b).skip(1) =~= a.skip(1) + b);
        assert((a + b)[0] == a[0]);
        assert(encoded_entries(a + b) =~= encoded_entries(a) + encoded_entries(b));
    }
}

/// Encodes a weighted-sequence set into the engine's input stream, one
/// record per entry in entry order.
pub fn encode_set(set: &WeightedSequenceSet) -> (r: Vec<u8>)
    ensures
        r@ == encoded_entries(set.entries_seq()),
{
    let ghost es = set.entries_seq();
    let mut out: Vec<u8> = Vec::new();
    let mut i: usize = 0;
    let n = set.len();
    proof {
        assert(es.take(0) =~= Seq::<(Vec<u8>, usize)>::empty());
        assert(out@ =~= encoded_entries(es.take(0)));
    }
    while i < n
        invariant
            n == es.len(),
            i <= n,
            es == set.entries_seq(),
            out@ == encoded_entries(es.take(i as int)),
        decreases n - i,
    {
        let (key, weight) = set.entry_at(i);
        let ghost before = out@;
        push_bytes(&mut out, key.as_slice());
        out.push(9);
        push_decimal(&mut out, weight);
        out.push(10);
        proof {
            assert(out@ =~= before + encoded_entry(es[i as int]));
            assert(es.take(i + 1) =~= es.take(i as int) + seq![es[i as int]]);
            lemma_encoded_entries_append(es.take(i as int), seq![es[i as int]]);
            assert(seq![es[i as int]].skip(1) =~= Seq::<(Vec<u8>, usize)>::empty());
            assert(encoded_entries(Seq::<(Vec<u8>, usize)>::empty()) == Seq::<u8>::empty());
            assert(encoded_entries(seq![es[i as int]]) =~= encoded_entry(es[i as int]));
            assert(out@ =~= encoded_entries(es.take(i + 1)));
        }
        i = i + 1;
    }
    proof {
        assert(es.take(es.len() as int) =~= es);
    }
    out
}

/// Whether the tokenizer treats `b` as whitespace.
pub fn is_ws_byte(b: u8) -> (r: bool)
    ensures
        r == is_ws(b),
{
    b == 32 || b == 9 || b == 10 || b == 13 || b == 12
}

/// Splits a byte string at every occurrence of `sep`: the line records of
/// an output stream, or the comma-joined member list of one record.
pub fn split_bytes(s: &[u8], sep: u8) -> (r: Vec<Vec<u8>>)
    ensures
        views_of(r@) == split_on(s@, sep),
{
    let mut out: Vec<Vec<u8>> = Vec::new();
    let mut cur: Vec<u8> = Vec::new();
    let mut start: usize = 0;
    let mut i: usize = 0;
    proof {
        assert(views_of(out@) =~= Seq::<Seq<u8>>::empty());
        assert(s@.skip(0) =~= s@);
        assert(cur@ =~= s@.subrange(0, 0));
    }
    while i < s.len()
        invariant
            start <= i <= s@.len(),
            cur@ == s@.subrange(start as int, i as int),
            forall|k: int| start <= k < i ==> s@[k] != sep,
            split_on(s@, sep) == views_of(out@) + split_on(s@.skip(start as int), sep),
        decreases s@.len() - i,
    {
        if s[i] == sep {
            proof {
                let tail = s@.skip(start as int);
                assert(forall|k: int| 0 <= k < i - start ==> tail[k] == s@[start + k]);
                lemma_split_on_boundary(tail, sep, i - start);
                assert(tail.take(i - start) =~= cur@);
                assert(tail.skip(i - start + 1) =~= s@.skip(i + 1));
                assert(views_of(out@.push(cur)) =~= views_of(out@) + seq![cur@]);
                assert(views_of(out@.push(cur)) + split_on(s@.skip(i + 1), sep)
                    =~= views_of(out@) + split_on(s@.skip(start as int), sep));
            }
            out.push(cur);
            cur = Vec::new();
            start = i + 1;
            proof {
                assert(cur@ =~= s@.subrange(start as int, start as int));
            }
        } else {
            cur.push(s[i]);
            proof {
                assert(cur@ =~= s@.subrange(start as int, i + 1));
            }
        }
        i = i + 1;
    }
    proof {
        let tail = s@.skip(start as int);
        assert(forall|k: int| 0 <= k < tail.len() ==> tail[k] == s@[start + k]);
        lemma_split_on_no_sep(tail, sep);
        assert(tail =~= cur@);
        assert(views_of(out@.push(cur)) =~= views_of(out@) + seq![cur@]);
        assert(views_of(out@.push(cur)) =~= split_on(s@, sep));
    }
    out.push(cur);
    out
}

/// Splits a line into its whitespace-delimited tokens.
pub fn split_ws_tokens(s: &[u8]) -> (r: Vec<Vec<u8>>)
    ensures
        views_of(r@) == tokens_of(s@),
{
    let mut out: Vec<Vec<u8>> = Vec::new();
    let mut i: usize = 0;
    proof {
        assert(views_of(out@) =~= Seq::<Seq<u8>>::empty());
        assert(s@.skip(0) =~= s@);
        assert(views_of(out@) + tokens_of(s@) =~= tokens_of(s@));
    }
    while i < s.len()
        invariant
            i <= s@.len(),
            tokens_of(s@) == views_of(out@) + tokens_of(s@.skip(i as int)),
        decreases s@.len() - i,
    {
        if is_ws_byte(s[i]) {
            proof {
                let tail = s@.skip(i as int);
                assert(tail[0] == s@[i as int]);
                assert(tail.skip(1) =~= s@.skip(i + 1));
            }
            i = i + 1;
        } else {
            let ghost tok_start: int = i as int;
            let mut cur: Vec<u8> = Vec::new();
            while i < s.len() && !is_ws_byte(s[i])
                invariant
                    0 <= tok_start <= i <= s@.len(),
                    tok_start < s@.len(),
                    !is_ws(s@[tok_start]),
                    cur@ == s@.subrange(tok_start, i as int),
                    forall|k: int| tok_start <= k < i ==> !is_ws(s@[k]),
                decreases s@.len() - i,
            {
                cur.push(s[i]);
                proof {
                    assert(cur@ =~= s@.subrange(tok_start, i + 1));
                }
                i = i + 1;
            }
            proof {
                let tail = s@.skip(tok_start);
                let m: int = i - tok_start;
                assert(m >= 1);
                assert(forall|k: int| 0 <= k < m ==> tail[k] == s@[tok_start + k]);
                if i < s.len() {
                    assert(tail[m] == s@[i as int]);
                }
                lemma_tokens_boundary(tail, m);
                assert(tail.take(m) =~= cur@);
                assert(tail.skip(m) =~= s@.skip(i as int));
                assert(views_of(out@.push(cur)) =~= views_of(out@) + seq![cur@]);
                assert(views_of(out@.push(cur)) + tokens_of(s@.skip(i as int))
                    =~= views_of(out@) + tokens_of(tail));
            }
            out.push(cur);
        }
    }
    proof {
        assert(s@.skip(i as int) =~= Seq::<u8>::empty());
        assert(views_of(out@) + tokens_of(s@.skip(i as int)) =~= views_of(out@));
    }
    out
}

/// Splits one output line as the decoder reads it: the first token (the
/// center), the second token (the count, still unparsed), and, when a
/// third token is present, its comma-separated pieces (the member list).
/// Missing leading tokens come back empty.
pub fn split_line(line: &[u8]) -> (r: (Vec<u8>, Vec<u8>, Option<Vec<Vec<u8>>>))
    ensures
        ({
            let toks = tokens_of(line@);
            &&& r.0@ == if toks.len() > 0 {
                toks[0]
            } else {
                Seq::<u8>::empty()
            }
            &&& r.1@ == if toks.len() > 1 {
                toks[1]
            } else {
                Seq::<u8>::empty()
            }
            &&& match r.2 {
                Some(members) => toks.len() > 2 && views_of(members@) == split_on(toks[2], 44),
                None => toks.len() <= 2,
            }
        }),
{
    let ghost toks = tokens_of(line@);
    let mut tokens = split_ws_tokens(line);
    let first: Vec<u8> = if tokens.len() > 0 {
        tokens.remove(0)
    } else {
        Vec::new()
    };
    proof {
        if toks.len() > 0 {
            assert(first@ == toks[0]);
            assert(views_of(tokens@) =~= toks.skip(1));
        }
    }
    let second: Vec<u8> = if tokens.len() > 0 {
        tokens.remove(0)
    } else {
        Vec::new()
    };
    proof {
        if toks.len() > 1 {
            assert(second@ == toks[1]);
            assert(views_of(tokens@) =~= toks.skip(2));
        }
    }
    let third: Option<Vec<Vec<u8>>> = if tokens.len() > 0 {
        let t = tokens.remove(0);
        proof {
            assert(t@ == toks[2]);
        }
        Some(split_bytes(t.as_slice(), 44))
    } else {
        None
    };
    (first, second, third)
}

/// One cluster record per output line: the representative center
/// sequence, the aggregate count, and the sequences merged into the
/// cluster (the center itself excluded; often none).
pub struct StarcodeAlignment {
    pub cluster_centers: Vec<Vec<u8>>,
    pub cluster_count: Vec<usize>,
    pub cluster_members: Vec<Vec<Vec<u8>>>,
}

impl StarcodeAlignment {
    /// The three parallel fields have equal length and every center is
    /// non-empty.
    pub open spec fn well_formed(self) -> bool {
        &&& self.cluster_centers@.len() == self.cluster_count@.len()
        &&& self.cluster_centers@.len() == self.cluster_members@.len()
        &&& forall|i: int| 0 <= i < self.cluster_centers@.len()
            ==> (#[trigger] self.cluster_centers@[i])@.len() > 0
    }
}

/// The record lines of an output stream: the newline-separated pieces,
/// without the empty piece a trailing newline leaves behind. An empty
/// piece anywhere else is a malformed (token-less) line.
pub open spec fn lines_of(s: Seq<u8>) -> Seq<Seq<u8>> {
    let raw = split_on(s, 10);
    if raw.last().len() == 0 {
        raw.drop_last()
    } else {
        raw
    }
}

/// A line decodes when it has a center token, a count token, and the
/// count parses to a value a `usize` can hold.
pub open spec fn line_ok(l: Seq<u8>) -> bool {
    &&& tokens_of(l).len() >= 2
    &&& count_ok(tokens_of(l)[1])
    &&& count_value(tokens_of(l)[1]) <= usize::MAX
}

/// A stream decodes when every record line decodes; malformed lines are
/// never skipped.
pub open spec fn decode_ok(s: Seq<u8>) -> bool {
    forall|i: int| 0 <= i < lines_of(s).len() ==> line_ok(#[trigger] lines_of(s)[i])
}

/// The center a decoded line contributes: its first token.
pub open spec fn line_center(l: Seq<u8>) -> Seq<u8> {
    tokens_of(l)[0]
}

/// The count a decoded line contributes: its second token's value.
pub open spec fn line_count(l: Seq<u8>) -> nat {
    count_value(tokens_of(l)[1])
}

/// The member list a decoded line contributes: the comma-separated pieces
/// of its third token, or nothing when the token is absent.
pub open spec fn line_members(l: Seq<u8>) -> Seq<Seq<u8>> {
    if tokens_of(l).len() > 2 {
        split_on(tokens_of(l)[2], 44)
    } else {
        Seq::empty()
    }
}

/// What a successful decode of the stream `s` returns: a well-formed
/// record collection with one cluster per line, in file order, whose
/// center, count and member list are the line's.
pub open spec fn decoded_matches(a: StarcodeAlignment, s: Seq<u8>) -> bool {
    let lines = lines_of(s);
    &&& a.well_formed()
    &&& a.cluster_centers@.len() == lines.len()
    &&& forall|i: int| 0 <= i < lines.len()
        ==> (#[trigger] a.cluster_centers@[i])@ == line_center(lines[i])
    &&& forall|i: int| 0 <= i < lines.len()
        ==> (#[trigger] a.cluster_count@[i]) as nat == line_count(lines[i])
    &&& forall|i: int| 0 <= i < lines.len()
        ==> views_of((#[trigger] a.cluster_members@[i])@) == line_members(lines[i])
}

/// Decodes the engine's output stream into one cluster record per line.
/// Any malformed line — an empty or token-less line, a missing or
/// unparseable count — fails the whole decode; a valid stream yields the
/// parallel records in file order. The validation applied per line is
/// deliberate: the center is checked non-empty once, and the count field
/// is validated by its own strict parse.
pub fn decode_output(bytes: &[u8]) -> (r: Result<StarcodeAlignment, AlignError>)
    ensures
        r is Ok <==> decode_ok(bytes@),
        r matches Ok(a) ==> decoded_matches(a, bytes@),
        r is Err ==> r == Result::<StarcodeAlignment, AlignError>::Err(AlignError::FormatError),
{
    let ghost lines = lines_of(bytes@);
    let mut raw = split_bytes(bytes, 10);
    proof {
        lemma_split_on_len(bytes@, 10);
        assert(raw@.len() == views_of(raw@).len());
    }
    if raw.len() > 0 && raw[raw.len() - 1].len() == 0 {
        proof {
            assert(views_of(raw@)[raw@.len() - 1] == raw@[raw@.len() - 1]@);
        }
        let ghost before = raw@;
        raw.pop();
        proof {
            assert(views_of(raw@) =~= views_of(before).drop_last());
        }
    } else {
        proof {
            assert(views_of(raw@)[raw@.len() - 1] == raw@[raw@.len() - 1]@);
        }
    }
    proof {
        assert(views_of(raw@) =~= lines);
    }
    let mut centers: Vec<Vec<u8>> = Vec::new();
    let mut counts: Vec<usize> = Vec::new();
    let mut members: Vec<Vec<Vec<u8>>> = Vec::new();
    let mut i: usize = 0;
    while i < raw.len()
        invariant
            lines == lines_of(bytes@),
            views_of(raw@) == lines,
            raw@.len() == lines.len(),
            i <= raw@.len(),
            centers@.len() == i,
            counts@.len() == i,
            members@.len() == i,
            forall|k: int| 0 <= k < i ==> line_ok(#[trigger] lines[k]),
            forall|k: int| 0 <= k < i ==> (#[trigger] centers@[k])@ == line_center(lines[k]),
            forall|k: int| 0 <= k < i ==> (#[trigger] centers@[k])@.len() > 0,
            forall|k: int| 0 <= k < i ==> (#[trigger] counts@[k]) as nat == line_count(lines[k]),
            forall|k: int| 0 <= k < i
                ==> views_of((#[trigger] members@[k])@) == line_members(lines[k]),
        decreases raw@.len() - i,
    {
        let line = &raw[i];
        proof {
            assert(views_of(raw@)[i as int] == raw@[i as int]@);
            lemma_tokens_nonempty(line@);
            assert(count_body(Seq::<u8>::empty()).len() == 0);
        }
        let ghost toks = tokens_of(lines[i as int]);
        let (center, count_tok, mem) = split_line(line.as_slice());
        if center.len() == 0 {
            proof {
                assert(toks.len() == 0);
                assert(!line_ok(lines[i as int]));
            }
            return Err(AlignError::FormatError);
        }
        let count = match parse_count(count_tok.as_slice()) {
            Some(c) => c,
            None => {
                proof {
                    assert(!line_ok(lines[i as int]));
                }
                return Err(AlignError::FormatError);
            },
        };
        proof {
            assert(toks.len() >= 2);
            assert(line_ok(lines[i as int]));
        }
        let member_list: Vec<Vec<u8>> = match mem {
            Some(m) => m,
            None => Vec::new(),
        };
        proof {
            assert(views_of(member_list@) =~= line_members(lines[i as int]));
        }
        centers.push(center);
        counts.push(count);
        members.push(member_list);
        i = i + 1;
    }
    let alignment = StarcodeAlignment {
        cluster_centers: centers,
        cluster_count: counts,
        cluster_members: members,
    };
    proof {
        assert(alignment.well_formed());
    }
    Ok(alignment)
}

/// No byte of any sequence in the entry list is tokenizer whitespace.
pub open spec fn entries_ws_free(es: Seq<(Vec<u8>, usize)>) -> bool {
    forall|i: int, k: int|
        0 <= i < es.len() && 0 <= k < es[i].0@.len() ==> !is_ws(#[trigger] es[i].0@[k])
}

/// An encoded record line holds no line feed: the sequence is
/// whitespace-free, the tab is not a line feed, the weight is digits.
proof fn lemma_entry_line_no_newline(e: (Vec<u8>, usize))
    requires
        forall|k: int| 0 <= k < e.0@.len() ==> !is_ws(#[trigger] e.0@[k]),
    ensures
        forall|k: int| 0 <= k < entry_line(e).len() ==> entry_line(e)[k] != 10,
{
    lemma_dec_rep_digits(e.1 as nat);
    let l = entry_line(e);
    assert forall|k: int| 0 <= k < l.len() implies l[k] != 10 by {
        if k < e.0@.len() {
            assert(l[k] == e.0@[k]);
        } else if k == e.0@.len() {
            assert(l[k] == 9);
        } else {
            assert(l[k] == dec_rep(e.1 as nat)[k - e.0@.len() - 1]);
            assert(is_digit(dec_rep(e.1 as nat)[k - e.0@.len() - 1]));
        }
    }
}

/// The newline-split pieces of an encoded entry list: one piece per
/// record, in order, and one empty piece from the final line feed.
proof fn lemma_encoded_raw_lines(es: Seq<(Vec<u8>, usize)>)
    requires
        entries_ws_free(es),
    ensures
        split_on(encoded_entries(es), 10).len() == es.len() + 1,
        forall|i: int| 0 <= i < es.len()
            ==> #[trigger] split_on(encoded_entries(es), 10)[i] == entry_line(es[i]),
        split_on(encoded_entries(es), 10)[es.len() as int].len() == 0,
    decreases es.len(),
{
    if es.len() == 0 {
        assert(encoded_entries(es) =~= Seq::<u8>::empty());
        assert(split_on(encoded_entries(es), 10) == seq![Seq::<u8>::empty()]);
    } else {
        let tail = es.skip(1);
        assert(entries_ws_free(tail)) by {
            assert forall|i: int, k: int|
                0 <= i < tail.len() && 0 <= k < tail[i].0@.len()
                implies !is_ws(#[trigger] tail[i].0@[k]) by {
                assert(tail[i] == es[i + 1]);
            }
        }
        lemma_encoded_raw_lines(tail);
        assert(forall|k: int| 0 <= k < es[0].0@.len() ==> !is_ws(#[trigger] es[0].0@[k]));
        lemma_entry_line_no_newline(es[0]);
        assert(encoded_entries(es) =~= entry_line(es[0]) + seq![10u8] + encoded_entries(tail));
        lemma_split_on_append(entry_line(es[0]), encoded_entries(tail), 10);
        lemma_split_on_no_sep(entry_line(es[0]), 10);
        let raw = split_on(encoded_entries(es), 10);
        let raw_tail = split_on(encoded_entries(tail), 10);
        assert(raw == seq![entry_line(es[0])] + raw_tail);
        assert forall|i: int| 0 <= i < es.len()
            implies #[trigger] raw[i] == entry_line(es[i]) by {
            if i >= 1 {
                assert(raw[i] == raw_tail[i - 1]);
                assert(tail[i - 1] == es[i]);
            }
        }
        assert(raw[es.len() as int] == raw_tail[tail.len() as int]);
    }
}

/// The two tokens of an encoded record line: the sequence, then the
/// rendered weight.
proof fn lemma_entry_line_tokens(e: (Vec<u8>, usize))
    requires
        e.0@.len() > 0,
        forall|k: int| 0 <= k < e.0@.len() ==> !is_ws(#[trigger] e.0@[k]),
    ensures
        tokens_of(entry_line(e)) == seq![e.0@, dec_rep(e.1 as nat)],
{
    lemma_dec_rep_digits(e.1 as nat);
    let l = entry_line(e);
    let key = e.0@;
    let d = dec_rep(e.1 as nat);
    let m = key.len() as int;
    assert(forall|k: int| 0 <= k < m ==> l[k] == key[k]);
    assert(l[m] == 9);
    assert(forall|k: int| 0 <= k < m ==> !is_ws(l[k]));
    lemma_tokens_boundary(l, m);
    assert(l.take(m) =~= key);
    let after = l.skip(m);
    assert(after[0] == 9);
    assert(after.skip(1) =~= d);
    assert(tokens_of(after) == tokens_of(d));
    assert(forall|k: int| 0 <= k < d.len() ==> is_digit(#[trigger] d[k]));
    assert(forall|k: int| 0 <= k < d.len() ==> !is_ws(d[k]));
    lemma_tokens_boundary(d, d.len() as int);
    assert(d.take(d.len() as int) =~= d);
    assert(d.skip(d.len() as int) =~= Seq::<u8>::empty());
    assert(tokens_of(Seq::<u8>::empty()) == Seq::<Seq<u8>>::empty());
    assert(tokens_of(d) =~= seq![d]);
    assert(tokens_of(l) =~= seq![key, d]);
}

/// Round trip: encoding a well-formed set whose sequences hold no
/// whitespace and reading the stream back as engine output decodes to one
/// cluster per entry, in entry order — each center is the entry's
/// sequence, each count its weight, each member list empty. The mapping
/// of sequences to counts is preserved exactly; actual engine output may
/// further merge clusters, which is the engine's prerogative.
pub proof fn lemma_encode_decode_round_trip(es: Seq<(Vec<u8>, usize)>)
    requires
        wf_entries(es),
        entries_ws_free(es),
    ensures
        decode_ok(encoded_entries(es)),
        lines_of(encoded_entries(es)).len() == es.len(),
        forall|i: int| 0 <= i < es.len()
            ==> line_center(#[trigger] lines_of(encoded_entries(es))[i]) == es[i].0@,
        forall|i: int| 0 <= i < es.len()
            ==> line_count(#[trigger] lines_of(encoded_entries(es))[i]) == es[i].1 as nat,
        forall|i: int| 0 <= i < es.len()
            ==> line_members(#[trigger] lines_of(encoded_entries(es))[i])
                == Seq::<Seq<u8>>::empty(),
{
    lemma_encoded_raw_lines(es);
    let enc = encoded_entries(es);
    let raw = split_on(enc, 10);
    let lines = lines_of(enc);
    assert(raw.last().len() == 0);
    assert(lines =~= raw.drop_last());
    assert(lines.len() == es.len());
    assert forall|i: int| 0 <= i < es.len()
        implies line_ok(#[trigger] lines[i])
            && line_center(lines[i]) == es[i].0@
            && line_count(lines[i]) == es[i].1 as nat
            && line_members(lines[i]) == Seq::<Seq<u8>>::empty() by {
        assert(lines[i] == entry_line(es[i]));
        assert(es[i].0@.len() > 0 && es[i].1 >= 1);
        assert(forall|k: int| 0 <= k < es[i].0@.len() ==> !is_ws(#[trigger] es[i].0@[k]));
        lemma_entry_line_tokens(es[i]);
        let d = dec_rep(es[i].1 as nat);
        lemma_dec_rep_digits(es[i].1 as nat);
        let toks = tokens_of(lines[i]);
        assert(toks.len() == 2);
        assert(toks[1] == d);
        assert(is_digit(d[0]));
        assert(d[0] != 43);
        assert(count_body(d) == d);
        assert(count_ok(d));
        assert(count_value(d) == es[i].1 as nat);
    }
    assert forall|i: int| 0 <= i < lines.len() implies line_ok(#[trigger] lines[i]) by {
    }
}

} // verus!
