use vstd::prelude::*;
use crate::errors::IpError;
use crate::ipv4::{
    addr_string, addr_text, all_digits, digit_char_test, digit_val, digit_value, digits_val,
    is_digit, is_valid_ipv4, lemma_addr_text_valid, lemma_digits_val_nonneg, to_chars,
};

verus! {

/// Characters on which the working text is cut into tokens: whitespace
/// plus the punctuation and bracket characters that wrap values in JSON
/// or HTML markup.
pub open spec fn is_delim(c: char) -> bool {
    ||| c == ' '
    ||| c == '\t'
    ||| c == '\n'
    ||| c == '\r'
    ||| c == '.'
    ||| c == ':'
    ||| c == '<'
    ||| c == '>'
    ||| c == '{'
    ||| c == '}'
}

/// Characters stripped from a token before numeric parsing: quote and
/// comma, artifacts of JSON strings and comma-separated listings.
pub open spec fn is_stripped(c: char) -> bool {
    c == '"' || c == ','
}

/// The length of the maximal delimiter-free run at the head of `s`.
pub open spec fn run_len(s: Seq<char>) -> int
    decreases s.len(),
{
    if s.len() == 0 || is_delim(s[0]) {
        0
    } else {
        1 + run_len(s.skip(1))
    }
}

/// What is left of a token after dropping its quote and comma characters.
pub open spec fn strip_of(t: Seq<char>) -> Seq<char>
    decreases t.len(),
{
    if t.len() == 0 {
        Seq::empty()
    } else if is_stripped(t.last()) {
        strip_of(t.drop_last())
    } else {
        strip_of(t.drop_last()).push(t.last())
    }
}

/// The digit part of an integer token: what follows an optional leading
/// sign character.
pub open spec fn digits_part(t: Seq<char>) -> Seq<char> {
    if t.len() > 0 && (t[0] == '+' || t[0] == '-') {
        t.skip(1)
    } else {
        t
    }
}

/// The signed value of an integer token.
pub open spec fn numeric_value(t: Seq<char>) -> int {
    if t.len() > 0 && t[0] == '-' {
        -digits_val(digits_part(t))
    } else {
        digits_val(digits_part(t))
    }
}

/// Whether 32-bit signed integer parsing accepts the token text `t`: an
/// optional sign, then at least one decimal digit and nothing else, with
/// a value inside the 32-bit signed range.
pub open spec fn parses_as_int(t: Seq<char>) -> bool {
    &&& digits_part(t).len() > 0
    &&& all_digits(digits_part(t))
    &&& -0x8000_0000 <= numeric_value(t) <= 0x7fff_ffff
}

/// The candidate octets one raw token contributes: its value when the
/// stripped token parses as an integer below 256, nothing otherwise.
pub open spec fn token_cand(t: Seq<char>) -> Seq<int> {
    let c = strip_of(t);
    if parses_as_int(c) && numeric_value(c) < 256 {
        seq![numeric_value(c)]
    } else {
        Seq::empty()
    }
}

/// The ordered candidate-octet list of a text: each maximal
/// delimiter-free run is stripped and parsed, and the values below 256
/// are kept in encountered order.
pub open spec fn cands_of(s: Seq<char>) -> Seq<int>
    decreases s.len()
    via cands_of_decreases
{
    if s.len() == 0 {
        Seq::empty()
    } else if is_delim(s[0]) {
        cands_of(s.skip(1))
    } else {
        token_cand(s.take(run_len(s))) + cands_of(s.skip(run_len(s)))
    }
}

#[via_fn]
proof fn cands_of_decreases(s: Seq<char>) {
    if s.len() > 0 && !is_delim(s[0]) {
        lemma_run_len_props(s);
        lemma_run_len_props(s.skip(1));
        assert(run_len(s) == 1 + run_len(s.skip(1)));
    }
}

/// The header/body separator stands at position `i` of `s`.
pub open spec fn sep_at(s: Seq<char>, i: int) -> bool {
    &&& 0 <= i
    &&& i + 4 <= s.len()
    &&& s[i] == '\r' && s[i + 1] == '\n' && s[i + 2] == '\r' && s[i + 3] == '\n'
}

/// The header/body separator occurs somewhere in `s`.
pub open spec fn has_sep(s: Seq<char>) -> bool {
    exists|i: int| sep_at(s, i)
}

/// The working text: what follows the last header/body separator under
/// left-to-right scanning, or the whole text when no separator occurs.
pub open spec fn body_of(s: Seq<char>) -> Seq<char>
    decreases s.len(),
{
    if !has_sep(s) {
        s
    } else if sep_at(s, 0) {
        body_of(s.skip(4))
    } else {
        body_of(s.skip(1))
    }
}

/// An in-range octet value.
pub open spec fn in_octet_range(v: int) -> bool {
    0 <= v <= 255
}

/// The candidate list opens with four in-range octet values.
pub open spec fn first_four_ok(cs: Seq<int>) -> bool {
    &&& cs.len() >= 4
    &&& in_octet_range(cs[0])
    &&& in_octet_range(cs[1])
    &&& in_octet_range(cs[2])
    &&& in_octet_range(cs[3])
}

/// The whole extraction pipeline as one mathematical function: the
/// address text assembled from the first four candidate octets of the
/// working text, or nothing when they are missing or out of range.
pub open spec fn extract_result(s: Seq<char>) -> Option<Seq<char>> {
    let cs = cands_of(body_of(s));
    if first_four_ok(cs) {
        Some(addr_text(cs[0], cs[1], cs[2], cs[3]))
    } else {
        None
    }
}

/// Bounds and boundary facts for the head run of `s`.
pub proof fn lemma_run_len_props(s: Seq<char>)
    ensures
        0 <= run_len(s) <= s.len(),
        forall|m: int| 0 <= m < run_len(s) ==> !is_delim(#[trigger] s[m]),
        run_len(s) < s.len() ==> is_delim(s[run_len(s)]),
    decreases s.len(),
{
    if s.len() == 0 || is_delim(s[0]) {
    } else {
        lemma_run_len_props(s.skip(1));
        assert forall|m: int| 0 <= m < run_len(s) implies !is_delim(#[trigger] s[m]) by {
            if m > 0 {
                assert(s.skip(1)[m - 1] == s[m]);
            }
        }
        if run_len(s) < s.len() {
            assert(s.skip(1)[run_len(s) - 1] == s[run_len(s)]);
        }
    }
}

/// The head run of `s` ends exactly where the characters say it does.
pub proof fn lemma_run_len_is(s: Seq<char>, k: int)
    requires
        0 <= k <= s.len(),
        forall|m: int| 0 <= m < k ==> !is_delim(#[trigger] s[m]),
        k == s.len() || is_delim(s[k]),
    ensures
        run_len(s) == k,
    decreases k,
{
    if k == 0 {
    } else {
        assert(!is_delim(s[0]));
        assert forall|m: int| 0 <= m < k - 1 implies !is_delim(#[trigger] s.skip(1)[m]) by {
            assert(s.skip(1)[m] == s[m + 1]);
        }
        if k < s.len() {
            assert(s.skip(1)[k - 1] == s[k]);
        }
        lemma_run_len_is(s.skip(1), k - 1);
    }
}

/// Every candidate octet value is below 256.
pub proof fn lemma_cands_bound(s: Seq<char>)
    ensures
        forall|m: int| 0 <= m < cands_of(s).len() ==> #[trigger] cands_of(s)[m] < 256,
    decreases s.len(),
{
    if s.len() == 0 {
        assert(cands_of(s).len() == 0);
    } else if is_delim(s[0]) {
        lemma_cands_bound(s.skip(1));
        assert forall|m: int| 0 <= m < cands_of(s).len() implies #[trigger] cands_of(s)[m]
            < 256 by {
            assert(cands_of(s)[m] == cands_of(s.skip(1))[m]);
        }
    } else {
        lemma_run_len_props(s);
        lemma_cands_bound(s.skip(run_len(s)));
        let t = token_cand(s.take(run_len(s)));
        let rest = cands_of(s.skip(run_len(s)));
        assert forall|m: int| 0 <= m < cands_of(s).len() implies #[trigger] cands_of(s)[m]
            < 256 by {
            if m < t.len() {
                assert(cands_of(s)[m] == t[m]);
            } else {
                assert(cands_of(s)[m] == rest[m - t.len()]);
            }
        }
    }
}

/// Shifting the start of the text shifts separator positions with it.
proof fn lemma_sep_shift(s: Seq<char>, a: int, q: int)
    requires
        0 <= a <= s.len(),
        0 <= q,
    ensures
        sep_at(s, a + q) <==> sep_at(s.skip(a), q),
{
    if a + q + 4 <= s.len() {
        assert(s.skip(a)[q] == s[a + q]);
        assert(s.skip(a)[q + 1] == s[a + q + 1]);
        assert(s.skip(a)[q + 2] == s[a + q + 2]);
        assert(s.skip(a)[q + 3] == s[a + q + 3]);
    }
}

/// Scanning forward to a separator at `i`, with none in between, lands the
/// working text right after it.
proof fn lemma_body_to_sep(s: Seq<char>, a: int, i: int)
    requires
        0 <= a <= i,
        sep_at(s, i),
        forall|p: int| a <= p < i ==> !(#[trigger] sep_at(s, p)),
    ensures
        body_of(s.skip(a)) == body_of(s.skip(i + 4)),
    decreases i - a,
{
    lemma_sep_shift(s, a, i - a);
    assert(sep_at(s.skip(a), i - a));
    assert(has_sep(s.skip(a)));
    if a == i {
        assert(sep_at(s.skip(a), 0));
        assert(s.skip(a).skip(4) =~= s.skip(a + 4));
    } else {
        lemma_sep_shift(s, a, 0);
        assert(!sep_at(s.skip(a), 0));
        assert(s.skip(a).skip(1) =~= s.skip(a + 1));
        lemma_body_to_sep(s, a + 1, i);
    }
}

/// A tail with no separator in it is its own working text.
proof fn lemma_body_no_sep(s: Seq<char>, a: int)
    requires
        0 <= a <= s.len(),
        forall|p: int| a <= p ==> !(#[trigger] sep_at(s, p)),
    ensures
        body_of(s.skip(a)) == s.skip(a),
{
    if has_sep(s.skip(a)) {
        let q = choose|q: int| sep_at(s.skip(a), q);
        lemma_sep_shift(s, a, q);
        assert(sep_at(s, a + q));
        assert(false);
    }
}

/// Decides `is_delim` on a character.
fn delim_char(c: char) -> (b: bool)
    ensures
        b == is_delim(c),
{
    c == ' ' || c == '\t' || c == '\n' || c == '\r' || c == '.' || c == ':' || c == '<' || c == '>'
        || c == '{' || c == '}'
}

/// Finds where the working text begins: right after the last header/body
/// separator consumed by a left-to-right scan, or at the start when there
/// is none.
fn body_start(chars: &Vec<char>) -> (start: usize)
    ensures
        start <= chars@.len(),
        chars@.skip(start as int) == body_of(chars@),
{
    let n = chars.len();
    let mut start: usize = 0;
    let mut i: usize = 0;
    proof {
        assert(chars@.skip(0) =~= chars@);
    }
    while i < n && n - i >= 4
        invariant
            n == chars@.len(),
            start <= i <= n,
            body_of(chars@) == body_of(chars@.skip(start as int)),
            forall|p: int| start <= p < i ==> !(#[trigger] sep_at(chars@, p)),
        decreases n - i,
    {
        if chars[i] == '\r' && chars[i + 1] == '\n' && chars[i + 2] == '\r' && chars[i + 3] == '\n'
        {
            proof {
                assert(sep_at(chars@, i as int));
                lemma_body_to_sep(chars@, start as int, i as int);
            }
            i = i + 4;
            start = i;
        } else {
            proof {
                assert(!sep_at(chars@, i as int));
            }
            i = i + 1;
        }
    }
    proof {
        assert forall|p: int| start <= p implies !(#[trigger] sep_at(chars@, p)) by {
            if p < i {
            } else {
                assert(p + 4 > n);
            }
        }
        lemma_body_no_sep(chars@, start as int);
    }
    start
}

/// A value clamped just above the 32-bit signed magnitude range, so that
/// the clamp still tells apart every outcome the range checks care about.
spec fn min_cap(v: int) -> int {
    if v > 0x8000_0001 {
        0x8000_0001
    } else {
        v
    }
}

/// Strips and parses one raw token, exactly as 32-bit signed integer
/// parsing would: `None` when the stripped token is not a well-formed
/// in-range integer.
fn parse_token(chars: &Vec<char>, from: usize, to: usize) -> (r: Option<i64>)
    requires
        from <= to <= chars@.len(),
    ensures
        r is Some <==> parses_as_int(strip_of(chars@.subrange(from as int, to as int))),
        r is Some ==> r->0 as int == numeric_value(
            strip_of(chars@.subrange(from as int, to as int)),
        ),
{
    let ghost ct = strip_of(chars@.subrange(from as int, to as int));
    let mut cleaned: Vec<char> = Vec::new();
    let mut m = from;
    proof {
        assert(chars@.subrange(from as int, from as int) =~= Seq::<char>::empty());
    }
    while m < to
        invariant
            from <= m <= to <= chars@.len(),
            cleaned@ == strip_of(chars@.subrange(from as int, m as int)),
        decreases to - m,
    {
        let c = chars[m];
        proof {
            let prev = chars@.subrange(from as int, m as int);
            let cur = chars@.subrange(from as int, m as int + 1);
            assert(cur.drop_last() =~= prev);
            assert(cur.last() == chars@[m as int]);
        }
        if !(c == '"' || c == ',') {
            cleaned.push(c);
        }
        m = m + 1;
    }
    proof {
        assert(cleaned@ == ct);
    }
    let len_c = cleaned.len();
    let mut pos: usize = 0;
    let mut neg = false;
    if len_c > 0 && (cleaned[0] == '+' || cleaned[0] == '-') {
        neg = cleaned[0] == '-';
        pos = 1;
    }
    if pos >= len_c {
        proof {
            assert(digits_part(ct).len() == 0);
        }
        return None;
    }
    proof {
        assert(digits_part(ct) =~= cleaned@.skip(pos as int));
        assert(cleaned@.subrange(pos as int, pos as int) =~= Seq::<char>::empty());
    }
    let mut mag: i64 = 0;
    let mut m2 = pos;
    while m2 < len_c
        invariant
            pos <= m2 <= len_c == cleaned@.len(),
            from <= to <= chars@.len(),
            ct == strip_of(chars@.subrange(from as int, to as int)),
            cleaned@ == ct,
            digits_part(ct) == cleaned@.skip(pos as int),
            pos == 1 ==> len_c > 1 && (ct[0] == '+' || ct[0] == '-'),
            pos == 0 ==> !(ct.len() > 0 && (ct[0] == '+' || ct[0] == '-')),
            neg <==> (pos == 1 && ct[0] == '-'),
            all_digits(cleaned@.subrange(pos as int, m2 as int)),
            digits_val(cleaned@.subrange(pos as int, m2 as int)) >= 0,
            0 <= mag <= 0x8000_0001,
            mag as int == min_cap(digits_val(cleaned@.subrange(pos as int, m2 as int))),
        decreases len_c - m2,
    {
        let c = cleaned[m2];
        if !digit_char_test(c) {
            proof {
                assert(cleaned@.skip(pos as int)[m2 - pos] == cleaned@[m2 as int]);
                assert(digits_part(ct)[m2 - pos] == c);
                assert(!all_digits(digits_part(ct)));
            }
            return None;
        }
        let d = digit_value(c);
        proof {
            let prev = cleaned@.subrange(pos as int, m2 as int);
            let cur = cleaned@.subrange(pos as int, m2 as int + 1);
            assert(cur.drop_last() =~= prev);
            assert(cur.last() == c);
            assert(digits_val(cur) == digits_val(prev) * 10 + digit_val(c));
            assert forall|x: int| 0 <= x < cur.len() implies is_digit(#[trigger] cur[x]) by {
                if x < prev.len() {
                    assert(cur[x] == prev[x]);
                }
            }
        }
        let t: i64 = mag * 10 + d as i64;
        mag = if t > 0x8000_0001 {
            0x8000_0001
        } else {
            t
        };
        m2 = m2 + 1;
    }
    proof {
        assert(cleaned@.subrange(pos as int, len_c as int) =~= digits_part(ct));
        lemma_digits_val_nonneg(digits_part(ct));
    }
    let in_range = if neg {
        mag <= 0x8000_0000
    } else {
        mag <= 0x7fff_ffff
    };
    if !in_range {
        return None;
    }
    if neg {
        Some(-mag)
    } else {
        Some(mag)
    }
}

/// Walks the working text token by token and gathers the candidate-octet
/// list, in encountered order.
fn collect_candidates(chars: &Vec<char>, start: usize) -> (cands: Vec<i64>)
    requires
        start <= chars@.len(),
    ensures
        cands@.map_values(|x: i64| x as int) == cands_of(chars@.skip(start as int)),
{
    let n = chars.len();
    let mut cands: Vec<i64> = Vec::new();
    let mut i = start;
    while i < n
        invariant
            start <= i <= n,
            n == chars@.len(),
            cands@.map_values(|x: i64| x as int) + cands_of(chars@.skip(i as int)) == cands_of(
                chars@.skip(start as int),
            ),
        decreases n - i,
    {
        let c = chars[i];
        if delim_char(c) {
            proof {
                assert(chars@.skip(i as int)[0] == c);
                assert(chars@.skip(i as int).skip(1) =~= chars@.skip(i as int + 1));
            }
            i = i + 1;
        } else {
            let mut j = i + 1;
            while j < n && !delim_char(chars[j])
                invariant
                    i < j <= n,
                    n == chars@.len(),
                    !is_delim(chars@[i as int]),
                    forall|m: int| i <= m < j ==> !is_delim(#[trigger] chars@[m]),
                decreases n - j,
            {
                j = j + 1;
            }
            proof {
                let tail = chars@.skip(i as int);
                assert forall|m: int| 0 <= m < j - i implies !is_delim(#[trigger] tail[m]) by {
                    assert(tail[m] == chars@[i + m]);
                }
                if j < n {
                    assert(tail[j - i] == chars@[j as int]);
                }
                lemma_run_len_is(tail, j - i);
                assert(tail.take(j - i) =~= chars@.subrange(i as int, j as int));
                assert(tail.skip(j - i) =~= chars@.skip(j as int));
            }
            let parsed = parse_token(chars, i, j);
            let ghost pre = cands@;
            match parsed {
                Some(v) => {
                    if v < 256 {
                        cands.push(v);
                        proof {
                            assert(cands@.map_values(|x: i64| x as int) =~= pre.map_values(
                                |x: i64| x as int,
                            ).push(v as int));
                            assert(token_cand(chars@.subrange(i as int, j as int)) =~= seq![
                                v as int,
                            ]);
                        }
                    } else {
                        proof {
                            assert(token_cand(chars@.subrange(i as int, j as int))
                                =~= Seq::<int>::empty());
                        }
                    }
                },
                None => {
                    proof {
                        assert(token_cand(chars@.subrange(i as int, j as int))
                            =~= Seq::<int>::empty());
                    }
                },
            }
            proof {
                assert(cands_of(chars@.skip(i as int)) == token_cand(
                    chars@.subrange(i as int, j as int),
                ) + cands_of(chars@.skip(j as int)));
            }
            i = j;
        }
    }
    proof {
        assert(chars@.skip(n as int) =~= Seq::<char>::empty());
        assert(cands_of(chars@.skip(n as int)).len() == 0);
        assert(cands@.map_values(|x: i64| x as int) =~= cands@.map_values(|x: i64| x as int)
            + cands_of(chars@.skip(i as int)));
    }
    cands
}

/// Extracts the first dotted-decimal IPv4 address embedded in `input`.
///
/// The text after the last header/body separator is cut on a broad
/// delimiter set; each token is stripped of quotes and commas and parsed
/// as an integer; the values below 256 form the candidate-octet list, in
/// encountered order. The first four candidates, when they exist and all
/// lie in octet range, are joined with dots and returned after passing
/// strict IPv4 grammar validation; every other outcome is a `ParseError`.
pub fn parse_ip(input: &str) -> (r: Result<String, IpError>)
    ensures
        r is Ok <==> extract_result(input@) is Some,
        r is Ok ==> Some(r->Ok_0@) == extract_result(input@),
        r is Err ==> r->Err_0 == IpError::ParseError,
{
    let chars = to_chars(input);
    let start = body_start(&chars);
    let cands = collect_candidates(&chars, start);
    let ghost cs = cands_of(body_of(input@));
    proof {
        assert(cs == cands@.map_values(|x: i64| x as int));
        lemma_cands_bound(body_of(input@));
    }
    if cands.len() < 4 {
        return Err(IpError::ParseError);
    }
    let c0 = cands[0];
    let c1 = cands[1];
    let c2 = cands[2];
    let c3 = cands[3];
    proof {
        assert(cs[0] == c0 as int && cs[1] == c1 as int && cs[2] == c2 as int && cs[3]
            == c3 as int);
        assert(cs[0] < 256 && cs[1] < 256 && cs[2] < 256 && cs[3] < 256);
    }
    if c0 < 0 || c1 < 0 || c2 < 0 || c3 < 0 {
        return Err(IpError::ParseError);
    }
    let addr = addr_string(c0 as u8, c1 as u8, c2 as u8, c3 as u8);
    proof {
        lemma_addr_text_valid(cs[0], cs[1], cs[2], cs[3]);
    }
    if is_valid_ipv4(addr.as_str()) {
        Ok(addr)
    } else {
        Err(IpError::ParseError)
    }
}

} // verus!
