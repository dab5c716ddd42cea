use vstd::prelude::*;
use crate::extract::{
    body_of, cands_of, digits_part, extract_result, first_four_ok, has_sep, in_octet_range,
    is_delim, lemma_run_len_is, lemma_run_len_props, numeric_value, parses_as_int, run_len,
    sep_at, strip_of, token_cand,
};
use crate::ipv4::{
    addr_text, all_digits, dec_str, digits_val, ipv4_witness, is_digit, is_ipv4_text,
    lemma_addr_text_valid, lemma_dec_str_basic, lemma_witness_chars,
};

verus! {

/// Stripping drops nothing from a digit string.
proof fn lemma_strip_digits(t: Seq<char>)
    requires
        all_digits(t),
    ensures
        strip_of(t) == t,
    decreases t.len(),
{
    if t.len() > 0 {
        assert forall|i: int| 0 <= i < t.drop_last().len() implies is_digit(
            #[trigger] t.drop_last()[i],
        ) by {
            assert(t.drop_last()[i] == t[i]);
        }
        lemma_strip_digits(t.drop_last());
        assert(t.drop_last().push(t.last()) =~= t);
    }
}

/// A text that opens with a whole token contributes that token's
/// candidates first.
proof fn lemma_cands_token(tok: Seq<char>, rest: Seq<char>)
    requires
        tok.len() >= 1,
        forall|m: int| 0 <= m < tok.len() ==> !is_delim(#[trigger] tok[m]),
        rest.len() == 0 || is_delim(rest[0]),
    ensures
        cands_of(tok + rest) == token_cand(tok) + cands_of(rest),
{
    let s = tok + rest;
    assert(s[0] == tok[0]);
    assert forall|m: int| 0 <= m < tok.len() implies !is_delim(#[trigger] s[m]) by {
        assert(s[m] == tok[m]);
    }
    if rest.len() > 0 {
        assert(s[tok.len() as int] == rest[0]);
    }
    lemma_run_len_is(s, tok.len() as int);
    assert(s.take(tok.len() as int) =~= tok);
    assert(s.skip(tok.len() as int) =~= rest);
}

/// A text that opens with the decimal form of an octet value contributes
/// that value as its first candidate.
proof fn lemma_cands_octet(v: int, rest: Seq<char>)
    requires
        0 <= v <= 255,
        rest.len() == 0 || is_delim(rest[0]),
    ensures
        cands_of(dec_str(v) + rest) == seq![v] + cands_of(rest),
{
    lemma_dec_str_basic(v);
    let tok = dec_str(v);
    assert forall|m: int| 0 <= m < tok.len() implies !is_delim(#[trigger] tok[m]) by {
        assert(is_digit(tok[m]));
    }
    lemma_cands_token(tok, rest);
    lemma_strip_digits(tok);
    assert(is_digit(tok[0]));
    assert(digits_part(tok) == tok);
    assert(numeric_value(tok) == digits_val(tok));
    assert(parses_as_int(tok));
    assert(token_cand(tok) =~= seq![v]);
}

/// A leading dot never contributes a candidate.
proof fn lemma_cands_dot(rest: Seq<char>)
    ensures
        cands_of(seq!['.'] + rest) == cands_of(rest),
{
    let s = seq!['.'] + rest;
    assert(s[0] == '.');
    assert(is_delim('.'));
    assert(s.skip(1) =~= rest);
}

/// Candidates distribute over concatenation when the left part closes on
/// a delimiter (or is empty), so no token straddles the seam.
proof fn lemma_cands_append(p: Seq<char>, r: Seq<char>)
    requires
        p.len() == 0 || is_delim(p.last()),
    ensures
        cands_of(p + r) == cands_of(p) + cands_of(r),
    decreases p.len(),
{
    if p.len() == 0 {
        assert(p + r =~= r);
        assert(cands_of(p).len() == 0);
        assert(cands_of(p) + cands_of(r) =~= cands_of(r));
    } else if is_delim(p[0]) {
        assert((p + r)[0] == p[0]);
        assert((p + r).skip(1) =~= p.skip(1) + r);
        if p.len() > 1 {
            assert(p.skip(1).last() == p.last());
        }
        lemma_cands_append(p.skip(1), r);
        assert(cands_of(p) == cands_of(p.skip(1)));
    } else {
        lemma_run_len_props(p);
        let n = run_len(p);
        assert(p[p.len() - 1] == p.last());
        if n == p.len() {
            assert(!is_delim(p[p.len() - 1]));
            assert(false);
        }
        assert(is_delim(p[n]));
        assert forall|m: int| 0 <= m < n implies !is_delim(#[trigger] (p + r)[m]) by {
            assert((p + r)[m] == p[m]);
        }
        assert((p + r)[n] == p[n]);
        lemma_run_len_is(p + r, n);
        assert((p + r).take(n) =~= p.take(n));
        assert((p + r).skip(n) =~= p.skip(n) + r);
        assert(p.skip(n).last() == p.last());
        lemma_cands_append(p.skip(n), r);
        assert(cands_of(p + r) == token_cand(p.take(n)) + (cands_of(p.skip(n)) + cands_of(r)));
        assert(cands_of(p) == token_cand(p.take(n)) + cands_of(p.skip(n)));
        assert(token_cand(p.take(n)) + (cands_of(p.skip(n)) + cands_of(r)) =~= (token_cand(
            p.take(n),
        ) + cands_of(p.skip(n))) + cands_of(r));
    }
}

/// A well-formed IPv4 literal standing clear of confounders is returned
/// unchanged: when nothing before it yields a candidate octet, the text
/// around it separates it cleanly, and no header/body separator hides it,
/// extraction returns exactly that literal.
#[verifier::rlimit(100)]
#[verifier::spinoff_prover]
pub proof fn lemma_extract_finds_literal(
    p: Seq<char>,
    q: Seq<char>,
    a: int,
    b: int,
    c: int,
    d: int,
)
    requires
        in_octet_range(a),
        in_octet_range(b),
        in_octet_range(c),
        in_octet_range(d),
        p.len() == 0 || is_delim(p.last()),
        q.len() == 0 || is_delim(q[0]),
        cands_of(p) == Seq::<int>::empty(),
        !has_sep(p + addr_text(a, b, c, d) + q),
    ensures
        extract_result(p + addr_text(a, b, c, d) + q) == Some(addr_text(a, b, c, d)),
{
    let lit = addr_text(a, b, c, d);
    let t = p + lit + q;
    assert(body_of(t) == t);
    let r3 = dec_str(d) + q;
    let r3d = seq!['.'] + r3;
    let r2 = dec_str(c) + r3d;
    let r2d = seq!['.'] + r2;
    let r1 = dec_str(b) + r2d;
    let r1d = seq!['.'] + r1;
    let r0 = dec_str(a) + r1d;
    lemma_cands_octet(d, q);
    lemma_cands_dot(r3);
    lemma_cands_octet(c, r3d);
    lemma_cands_dot(r2);
    lemma_cands_octet(b, r2d);
    lemma_cands_dot(r1);
    lemma_cands_octet(a, r1d);
    assert(cands_of(r0) =~= seq![a, b, c, d] + cands_of(q));
    lemma_cands_append(p, r0);
    assert(p + r0 =~= t);
    assert(cands_of(t) =~= seq![a, b, c, d] + cands_of(q));
    let cs = cands_of(body_of(t));
    assert(cs[0] == a && cs[1] == b && cs[2] == c && cs[3] == d);
    assert(first_four_ok(cs));
    assert(addr_text(cs[0], cs[1], cs[2], cs[3]) == lit);
}

/// A bare canonical literal, with nothing around it, extracts to itself.
pub proof fn lemma_extract_bare_literal(a: int, b: int, c: int, d: int)
    requires
        in_octet_range(a),
        in_octet_range(b),
        in_octet_range(c),
        in_octet_range(d),
    ensures
        extract_result(addr_text(a, b, c, d)) == Some(addr_text(a, b, c, d)),
{
    let lit = addr_text(a, b, c, d);
    lemma_addr_text_valid(a, b, c, d);
    let (i, j, k): (int, int, int) = choose|i: int, j: int, k: int| ipv4_witness(lit, i, j, k);
    assert(!has_sep(lit)) by {
        if has_sep(lit) {
            let q = choose|q: int| sep_at(lit, q);
            assert(lit[q] == '\r');
            lemma_witness_chars(lit, i, j, k, q);
            assert(false);
        }
    }
    let e = Seq::<char>::empty();
    assert(cands_of(e) =~= Seq::<int>::empty());
    assert(e + lit + e =~= lit);
    lemma_extract_finds_literal(e, e, a, b, c, d);
}

/// How many in-range octet values a candidate list holds.
pub open spec fn octet_count(cs: Seq<int>) -> int
    decreases cs.len(),
{
    if cs.len() == 0 {
        0
    } else {
        octet_count(cs.drop_last()) + if in_octet_range(cs.last()) {
            1int
        } else {
            0int
        }
    }
}

/// A prefix never counts more in-range values than the whole list.
proof fn lemma_octet_count_take(cs: Seq<int>, k: int)
    requires
        0 <= k <= cs.len(),
    ensures
        octet_count(cs) >= octet_count(cs.take(k)),
    decreases cs.len() - k,
{
    if k == cs.len() {
        assert(cs.take(k) =~= cs);
    } else {
        assert(cs.take(k + 1).drop_last() =~= cs.take(k));
        assert(octet_count(cs.take(k + 1)) >= octet_count(cs.take(k)));
        lemma_octet_count_take(cs, k + 1);
    }
}

/// A text whose working part holds fewer than four in-range numeric
/// tokens never yields an address.
pub proof fn lemma_too_few_octets(s: Seq<char>)
    requires
        octet_count(cands_of(body_of(s))) < 4,
    ensures
        extract_result(s) is None,
{
    let cs = cands_of(body_of(s));
    if extract_result(s) is Some {
        assert(first_four_ok(cs));
        reveal_with_fuel(octet_count, 6);
        assert(cs.take(4).drop_last() =~= cs.take(3));
        assert(cs.take(3).drop_last() =~= cs.take(2));
        assert(cs.take(2).drop_last() =~= cs.take(1));
        assert(cs.take(1).drop_last() =~= cs.take(0));
        assert(cs.take(0).len() == 0);
        assert(cs.take(4).last() == cs[3]);
        assert(cs.take(3).last() == cs[2]);
        assert(cs.take(2).last() == cs[1]);
        assert(cs.take(1).last() == cs[0]);
        assert(octet_count(cs.take(4)) == 4);
        lemma_octet_count_take(cs, 4);
        assert(false);
    }
}

/// When the first four candidates do not form a valid IPv4 grouping, no
/// address is returned, silently or otherwise.
pub proof fn lemma_invalid_grouping(s: Seq<char>)
    requires
        cands_of(body_of(s)).len() >= 4,
        !(in_octet_range(cands_of(body_of(s))[0]) && in_octet_range(cands_of(body_of(s))[1])
            && in_octet_range(cands_of(body_of(s))[2]) && in_octet_range(
            cands_of(body_of(s))[3],
        )),
    ensures
        extract_result(s) is None,
{
}

/// Whatever the input, an extracted address always meets the strict IPv4
/// grammar: four in-range groups were found, in encountered order, and
/// their dotted join parses as an IPv4 literal.
pub proof fn lemma_no_invalid_address(s: Seq<char>)
    ensures
        extract_result(s) is Some ==> is_ipv4_text(extract_result(s)->0),
{
    if extract_result(s) is Some {
        let cs = cands_of(body_of(s));
        lemma_addr_text_valid(cs[0], cs[1], cs[2], cs[3]);
    }
}

/// Extraction has no hidden state: its outcome is a function of the input
/// text alone, so two runs over equal text agree.
pub proof fn lemma_extract_stateless(s1: Seq<char>, s2: Seq<char>)
    requires
        s1 == s2,
    ensures
        extract_result(s1) == extract_result(s2),
{
}

} // verus!
