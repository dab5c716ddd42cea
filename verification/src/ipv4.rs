use vstd::prelude::*;
use vstd::arithmetic::div_mod::lemma_fundamental_div_mod;
use vstd::string::{StrSliceExecFns, StringExecFns};

verus! {

/// The ten decimal digit characters.
pub open spec fn is_digit(c: char) -> bool {
    ||| c == '0'
    ||| c == '1'
    ||| c == '2'
    ||| c == '3'
    ||| c == '4'
    ||| c == '5'
    ||| c == '6'
    ||| c == '7'
    ||| c == '8'
    ||| c == '9'
}

/// The numeric value of a decimal digit character.
pub open spec fn digit_val(c: char) -> int {
    if c == '0' {
        0
    } else if c == '1' {
        1
    } else if c == '2' {
        2
    } else if c == '3' {
        3
    } else if c == '4' {
        4
    } else if c == '5' {
        5
    } else if c == '6' {
        6
    } else if c == '7' {
        7
    } else if c == '8' {
        8
    } else {
        9
    }
}

/// The character for a decimal digit value.
pub open spec fn digit_char(d: int) -> char {
    if d == 0 {
        '0'
    } else if d == 1 {
        '1'
    } else if d == 2 {
        '2'
    } else if d == 3 {
        '3'
    } else if d == 4 {
        '4'
    } else if d == 5 {
        '5'
    } else if d == 6 {
        '6'
    } else if d == 7 {
        '7'
    } else if d == 8 {
        '8'
    } else {
        '9'
    }
}

/// Whether every character of `t` is a decimal digit.
pub open spec fn all_digits(t: Seq<char>) -> bool {
    forall|i: int| 0 <= i < t.len() ==> is_digit(#[trigger] t[i])
}

/// The value of a digit string read in the usual way, most significant
/// digit first.
pub open spec fn digits_val(t: Seq<char>) -> int
    decreases t.len(),
{
    if t.len() == 0 {
        0
    } else {
        digits_val(t.drop_last()) * 10 + digit_val(t.last())
    }
}

/// The canonical decimal text of `n`: no sign, no leading zeros.
pub open spec fn dec_str(n: int) -> Seq<char>
    recommends
        0 <= n,
    decreases n,
{
    if n <= 9 {
        seq![digit_char(n)]
    } else {
        dec_str(n / 10).push(digit_char(n % 10))
    }
}

/// The text of a dotted-decimal address assembled from four octet values.
pub open spec fn addr_text(a: int, b: int, c: int, d: int) -> Seq<char> {
    dec_str(a) + seq!['.'] + dec_str(b) + seq!['.'] + dec_str(c) + seq!['.'] + dec_str(d)
}

/// One decimal group of a strict IPv4 literal: one to three digits, value
/// at most 255, and no leading zero unless the group is exactly `0`.
pub open spec fn valid_group(t: Seq<char>) -> bool {
    &&& 1 <= t.len() <= 3
    &&& all_digits(t)
    &&& digits_val(t) <= 255
    &&& t.len() > 1 ==> t[0] != '0'
}

/// `i`, `j`, `k` witness that `s` is an IPv4 literal: they are the
/// positions of its three dots, and the four texts between them are
/// valid decimal groups.
pub open spec fn ipv4_witness(s: Seq<char>, i: int, j: int, k: int) -> bool {
    &&& 0 <= i < j < k < s.len()
    &&& s[i] == '.' && s[j] == '.' && s[k] == '.'
    &&& valid_group(s.subrange(0, i))
    &&& valid_group(s.subrange(i + 1, j))
    &&& valid_group(s.subrange(j + 1, k))
    &&& valid_group(s.subrange(k + 1, s.len() as int))
}

/// Strict IPv4 grammar: four valid decimal groups joined by dots, and
/// nothing else.
pub open spec fn is_ipv4_text(s: Seq<char>) -> bool {
    exists|i: int, j: int, k: int| ipv4_witness(s, i, j, k)
}

/// Facts about the canonical decimal text of a nonnegative number.
pub proof fn lemma_dec_str_basic(n: int)
    requires
        0 <= n,
    ensures
        dec_str(n).len() >= 1,
        all_digits(dec_str(n)),
        digits_val(dec_str(n)) == n,
        n >= 1 ==> dec_str(n)[0] != '0',
        n <= 9 ==> dec_str(n).len() == 1,
        n <= 99 ==> dec_str(n).len() <= 2,
        n <= 999 ==> dec_str(n).len() <= 3,
    decreases n,
{
    if n <= 9 {
        let t = dec_str(n);
        assert(t =~= seq![digit_char(n)]);
        assert(t.drop_last() =~= Seq::<char>::empty());
        assert(digits_val(t.drop_last()) == 0);
        assert(t.last() == digit_char(n));
        assert(digits_val(t) == digits_val(t.drop_last()) * 10 + digit_val(t.last()));
        assert(digit_val(digit_char(n)) == n);
    } else {
        lemma_fundamental_div_mod(n, 10);
        lemma_dec_str_basic(n / 10);
        let prefix = dec_str(n / 10);
        let last = digit_char(n % 10);
        let t = dec_str(n);
        assert(t == prefix.push(last));
        assert(t.drop_last() =~= prefix);
        assert(t.last() == last);
        assert(0 <= n % 10 < 10);
        assert(digit_val(last) == n % 10);
        assert(digits_val(t) == digits_val(prefix) * 10 + digit_val(last));
        assert(digits_val(t) == n);
        assert forall|i: int| 0 <= i < t.len() implies is_digit(#[trigger] t[i]) by {
            if i < prefix.len() {
                assert(t[i] == prefix[i]);
            } else {
                assert(t[i] == last);
            }
        }
        assert(t[0] == prefix[0]);
    }
}

/// The canonical decimal text of an octet value is a valid IPv4 group.
pub proof fn lemma_dec_str_group(n: int)
    requires
        0 <= n <= 255,
    ensures
        valid_group(dec_str(n)),
        digits_val(dec_str(n)) == n,
{
    lemma_dec_str_basic(n);
    if dec_str(n).len() > 1 {
        // a group of more than one digit comes from a value of ten or more
        if n <= 9 {
            assert(dec_str(n).len() == 1);
        }
    }
}

/// An address assembled from four in-range octet values meets the strict
/// IPv4 grammar.
pub proof fn lemma_addr_text_valid(a: int, b: int, c: int, d: int)
    requires
        0 <= a <= 255,
        0 <= b <= 255,
        0 <= c <= 255,
        0 <= d <= 255,
    ensures
        is_ipv4_text(addr_text(a, b, c, d)),
{
    lemma_dec_str_group(a);
    lemma_dec_str_group(b);
    lemma_dec_str_group(c);
    lemma_dec_str_group(d);
    let s = addr_text(a, b, c, d);
    let i = dec_str(a).len() as int;
    let j = i + 1 + dec_str(b).len() as int;
    let k = j + 1 + dec_str(c).len() as int;
    assert(s.subrange(0, i) =~= dec_str(a));
    assert(s.subrange(i + 1, j) =~= dec_str(b));
    assert(s.subrange(j + 1, k) =~= dec_str(c));
    assert(s.subrange(k + 1, s.len() as int) =~= dec_str(d));
    assert(s[i] == '.');
    assert(s[j] == '.');
    assert(s[k] == '.');
    assert(ipv4_witness(s, i, j, k));
}

/// Decides `is_digit` on a character.
pub(crate) fn digit_char_test(c: char) -> (b: bool)
    ensures
        b == is_digit(c),
{
    c == '0' || c == '1' || c == '2' || c == '3' || c == '4' || c == '5' || c == '6' || c == '7'
        || c == '8' || c == '9'
}

/// Reads the value of a decimal digit character.
pub(crate) fn digit_value(c: char) -> (d: u8)
    requires
        is_digit(c),
    ensures
        d as int == digit_val(c),
        d <= 9,
{
    if c == '0' {
        0
    } else if c == '1' {
        1
    } else if c == '2' {
        2
    } else if c == '3' {
        3
    } else if c == '4' {
        4
    } else if c == '5' {
        5
    } else if c == '6' {
        6
    } else if c == '7' {
        7
    } else if c == '8' {
        8
    } else {
        9
    }
}

/// A digit string has a nonnegative value.
pub proof fn lemma_digits_val_nonneg(t: Seq<char>)
    requires
        all_digits(t),
    ensures
        digits_val(t) >= 0,
    decreases t.len(),
{
    if t.len() > 0 {
        assert forall|i: int| 0 <= i < t.drop_last().len() implies is_digit(
            #[trigger] t.drop_last()[i],
        ) by {
            assert(t.drop_last()[i] == t[i]);
        }
        lemma_digits_val_nonneg(t.drop_last());
    }
}

/// Turns a text into the vector of its characters.
pub fn to_chars(s: &str) -> (v: Vec<char>)
    ensures
        v@ == s@,
{
    let n = s.unicode_len();
    let mut v: Vec<char> = Vec::new();
    let mut m: usize = 0;
    while m < n
        invariant
            n == s@.len(),
            m <= n,
            v@ == s@.take(m as int),
        decreases n - m,
    {
        let c = s.get_char(m);
        v.push(c);
        proof {
            assert(v@ =~= s@.take(m as int + 1));
        }
        m += 1;
    }
    proof {
        assert(s@.take(n as int) =~= s@);
    }
    v
}

/// A dot inside an IPv4 literal can only stand at one of the three
/// witnessed dot positions: the groups hold digits alone.
proof fn lemma_dot_in_witness(s: Seq<char>, i: int, j: int, k: int, p: int)
    requires
        ipv4_witness(s, i, j, k),
        0 <= p < s.len(),
        s[p] == '.',
    ensures
        p == i || p == j || p == k,
{
    if p < i {
        assert(s.subrange(0, i)[p] == s[p]);
        assert(is_digit(s[p]));
        assert(false);
    } else if i < p < j {
        assert(s.subrange(i + 1, j)[p - (i + 1)] == s[p]);
        assert(false);
    } else if j < p < k {
        assert(s.subrange(j + 1, k)[p - (j + 1)] == s[p]);
        assert(false);
    } else if k < p {
        assert(s.subrange(k + 1, s.len() as int)[p - (k + 1)] == s[p]);
        assert(false);
    }
}

/// Every character of an IPv4 literal is a digit or a dot.
pub(crate) proof fn lemma_witness_chars(s: Seq<char>, i: int, j: int, k: int, p: int)
    requires
        ipv4_witness(s, i, j, k),
        0 <= p < s.len(),
    ensures
        is_digit(s[p]) || s[p] == '.',
{
    if p < i {
        assert(s.subrange(0, i)[p] == s[p]);
    } else if i < p < j {
        assert(s.subrange(i + 1, j)[p - (i + 1)] == s[p]);
    } else if j < p < k {
        assert(s.subrange(j + 1, k)[p - (j + 1)] == s[p]);
    } else if k < p {
        assert(s.subrange(k + 1, s.len() as int)[p - (k + 1)] == s[p]);
    }
}

/// An increasing list of exactly the dot positions of an IPv4 literal is
/// the witness triple itself.
proof fn lemma_witness_dots(s: Seq<char>, dots: Seq<usize>, i: int, j: int, k: int)
    requires
        s.len() <= usize::MAX as int,
        ipv4_witness(s, i, j, k),
        forall|x: int|
            0 <= x < dots.len() ==> #[trigger] dots[x] < s.len() && s[dots[x] as int] == '.',
        forall|x: int, y: int| 0 <= x < y < dots.len() ==> #[trigger] dots[x] < #[trigger] dots[y],
        forall|p: int| 0 <= p < s.len() && #[trigger] s[p] == '.' ==> dots.contains(p as usize),
    ensures
        dots.len() == 3,
        dots[0] as int == i,
        dots[1] as int == j,
        dots[2] as int == k,
{
    assert forall|x: int|
        0 <= x < dots.len() implies (dots[x] as int == i || dots[x] as int == j || dots[x] as int
        == k) by {
        lemma_dot_in_witness(s, i, j, k, dots[x] as int);
    }
    assert(s[i] == '.');
    assert(s[j] == '.');
    assert(s[k] == '.');
    assert(dots.contains(i as usize));
    assert(dots.contains(j as usize));
    assert(dots.contains(k as usize));
    let xi = choose|x: int| 0 <= x < dots.len() && dots[x] == i as usize;
    let xj = choose|x: int| 0 <= x < dots.len() && dots[x] == j as usize;
    let xk = choose|x: int| 0 <= x < dots.len() && dots[x] == k as usize;
    assert(dots[xi] as int == i && dots[xj] as int == j && dots[xk] as int == k);
    assert(xi != xj && xi != xk && xj != xk);
    assert(dots.len() >= 3);
    if dots.len() > 3 {
        assert(dots[0] < dots[1] && dots[1] < dots[2] && dots[2] < dots[3]);
        assert(false);
    }
    assert(xi < xj) by {
        if xj < xi {
            assert(dots[xj] < dots[xi]);
        }
    }
    assert(xj < xk) by {
        if xk < xj {
            assert(dots[xk] < dots[xj]);
        }
    }
}

/// Checks one decimal group of a candidate literal.
fn check_group(chars: &Vec<char>, from: usize, to: usize) -> (b: bool)
    requires
        from <= to <= chars@.len(),
    ensures
        b == valid_group(chars@.subrange(from as int, to as int)),
{
    let ghost t = chars@.subrange(from as int, to as int);
    let n = to - from;
    if n < 1 || n > 3 {
        return false;
    }
    let mut m = from;
    while m < to
        invariant
            from <= m <= to <= chars@.len(),
            forall|x: int| from <= x < m ==> is_digit(#[trigger] chars@[x]),
        decreases to - m,
    {
        if !digit_char_test(chars[m]) {
            proof {
                assert(chars@.subrange(from as int, to as int)[m - from] == chars@[m as int]);
            }
            return false;
        }
        m = m + 1;
    }
    proof {
        assert forall|x: int| 0 <= x < t.len() implies is_digit(#[trigger] t[x]) by {
            assert(t[x] == chars@[from + x]);
        }
    }
    if n > 1 && chars[from] == '0' {
        proof {
            assert(t[0] == chars@[from as int]);
        }
        return false;
    }
    let v: u32 = if n == 1 {
        digit_value(chars[from]) as u32
    } else if n == 2 {
        digit_value(chars[from]) as u32 * 10 + digit_value(chars[from + 1]) as u32
    } else {
        digit_value(chars[from]) as u32 * 100 + digit_value(chars[from + 1]) as u32 * 10
            + digit_value(chars[from + 2]) as u32
    };
    proof {
        reveal_with_fuel(digits_val, 4);
        if n == 1 {
            assert(t.drop_last() =~= Seq::<char>::empty());
            assert(t.last() == chars@[from as int]);
        } else if n == 2 {
            let t1 = t.drop_last();
            assert(t1 =~= chars@.subrange(from as int, from as int + 1));
            assert(t1.drop_last() =~= Seq::<char>::empty());
            assert(t1.last() == chars@[from as int]);
            assert(t.last() == chars@[from as int + 1]);
        } else {
            let t2 = t.drop_last();
            assert(t2 =~= chars@.subrange(from as int, from as int + 2));
            let t1 = t2.drop_last();
            assert(t1 =~= chars@.subrange(from as int, from as int + 1));
            assert(t1.drop_last() =~= Seq::<char>::empty());
            assert(t1.last() == chars@[from as int]);
            assert(t2.last() == chars@[from as int + 1]);
            assert(t.last() == chars@[from as int + 2]);
        }
        assert(v as int == digits_val(t));
    }
    v <= 255
}

/// Checks a text against the strict IPv4 grammar: four decimal groups of
/// one to three digits, each at most 255 and free of leading zeros,
/// joined by dots, with nothing before or after.
pub fn is_valid_ipv4(s: &str) -> (b: bool)
    ensures
        b == is_ipv4_text(s@),
{
    let chars = to_chars(s);
    let n = chars.len();
    let mut dots: Vec<usize> = Vec::new();
    let mut m: usize = 0;
    while m < n
        invariant
            m <= n,
            n == chars@.len(),
            chars@ == s@,
            forall|x: int|
                0 <= x < dots@.len() ==> #[trigger] dots@[x] < m && chars@[dots@[x] as int] == '.',
            forall|x: int, y: int|
                0 <= x < y < dots@.len() ==> #[trigger] dots@[x] < #[trigger] dots@[y],
            forall|p: int| 0 <= p < m && #[trigger] chars@[p] == '.' ==> dots@.contains(p as usize),
        decreases n - m,
    {
        let ghost pre = dots@;
        if chars[m] == '.' {
            dots.push(m);
        }
        proof {
            assert forall|p: int|
                0 <= p < m + 1 && #[trigger] chars@[p] == '.' implies dots@.contains(
                p as usize,
            ) by {
                if p < m {
                    let x = choose|x: int| 0 <= x < pre.len() && pre[x] == p as usize;
                    assert(dots@[x] == p as usize);
                } else {
                    assert(chars@[m as int] == '.');
                    assert(dots@[dots@.len() - 1] == m as usize);
                }
            }
        }
        m = m + 1;
    }
    if dots.len() != 3 {
        proof {
            if is_ipv4_text(s@) {
                let (i, j, k): (int, int, int) = choose|i: int, j: int, k: int|
                    ipv4_witness(s@, i, j, k);
                lemma_witness_dots(s@, dots@, i, j, k);
                assert(false);
            }
        }
        return false;
    }
    let i = dots[0];
    let j = dots[1];
    let k = dots[2];
    proof {
        assert(dots@[0] < dots@[1] && dots@[1] < dots@[2]);
    }
    let g1 = check_group(&chars, 0, i);
    let g2 = check_group(&chars, i + 1, j);
    let g3 = check_group(&chars, j + 1, k);
    let g4 = check_group(&chars, k + 1, n);
    let b = g1 && g2 && g3 && g4;
    proof {
        let ii = i as int;
        let jj = j as int;
        let kk = k as int;
        if b {
            assert(ipv4_witness(s@, ii, jj, kk));
        } else {
            if is_ipv4_text(s@) {
                let (i2, j2, k2): (int, int, int) = choose|i2: int, j2: int, k2: int|
                    ipv4_witness(s@, i2, j2, k2);
                lemma_witness_dots(s@, dots@, i2, j2, k2);
                assert(ii == i2 && jj == j2 && kk == k2);
                assert(ipv4_witness(s@, ii, jj, kk));
                assert(false);
            }
        }
    }
    b
}

/// Appends one decimal digit character to `out`.
fn push_digit(out: &mut String, d: u8)
    requires
        d < 10,
    ensures
        final(out)@ == old(out)@ + seq![digit_char(d as int)],
{
    if d == 0 {
        out.append("0");
        proof {
            reveal_strlit("0");
            assert(out@ =~= old(out)@ + seq![digit_char(d as int)]);
        }
    } else if d == 1 {
        out.append("1");
        proof {
            reveal_strlit("1");
            assert(out@ =~= old(out)@ + seq![digit_char(d as int)]);
        }
    } else if d == 2 {
        out.append("2");
        proof {
            reveal_strlit("2");
            assert(out@ =~= old(out)@ + seq![digit_char(d as int)]);
        }
    } else if d == 3 {
        out.append("3");
        proof {
            reveal_strlit("3");
            assert(out@ =~= old(out)@ + seq![digit_char(d as int)]);
        }
    } else if d == 4 {
        out.append("4");
        proof {
            reveal_strlit("4");
            assert(out@ =~= old(out)@ + seq![digit_char(d as int)]);
        }
    } else if d == 5 {
        out.append("5");
        proof {
            reveal_strlit("5");
            assert(out@ =~= old(out)@ + seq![digit_char(d as int)]);
        }
    } else if d == 6 {
        out.append("6");
        proof {
            reveal_strlit("6");
            assert(out@ =~= old(out)@ + seq![digit_char(d as int)]);
        }
    } else if d == 7 {
        out.append("7");
        proof {
            reveal_strlit("7");
            assert(out@ =~= old(out)@ + seq![digit_char(d as int)]);
        }
    } else if d == 8 {
        out.append("8");
        proof {
            reveal_strlit("8");
            assert(out@ =~= old(out)@ + seq![digit_char(d as int)]);
        }
    } else {
        out.append("9");
        proof {
            reveal_strlit("9");
            assert(out@ =~= old(out)@ + seq![digit_char(d as int)]);
        }
    }
}

/// Appends the canonical decimal text of an octet value to `out`.
fn push_octet(out: &mut String, n: u8)
    ensures
        final(out)@ == old(out)@ + dec_str(n as int),
{
    proof {
        reveal_with_fuel(dec_str, 3);
        lemma_fundamental_div_mod(n as int, 10);
        if n >= 100 {
            vstd::arithmetic::div_mod::lemma_div_denominator(n as int, 10, 10);
            lemma_fundamental_div_mod(n as int / 10, 10);
        }
    }
    if n >= 100 {
        push_digit(out, n / 100);
        push_digit(out, (n / 10) % 10);
        push_digit(out, n % 10);
        proof {
            let prefix = dec_str(n as int / 10);
            assert(prefix =~= seq![digit_char(n as int / 100)].push(digit_char((n as int / 10) % 10)));
            assert(dec_str(n as int) =~= prefix.push(digit_char(n as int % 10)));
            assert(out@ =~= old(out)@ + dec_str(n as int));
        }
    } else if n >= 10 {
        push_digit(out, n / 10);
        push_digit(out, n % 10);
        proof {
            assert(dec_str(n as int) =~= seq![digit_char(n as int / 10)].push(digit_char(n as int % 10)));
            assert(out@ =~= old(out)@ + dec_str(n as int));
        }
    } else {
        push_digit(out, n);
        proof {
            assert(out@ =~= old(out)@ + dec_str(n as int));
        }
    }
}

/// Joins four octet values into their dotted-decimal address text.
pub fn addr_string(a: u8, b: u8, c: u8, d: u8) -> (s: String)
    ensures
        s@ == addr_text(a as int, b as int, c as int, d as int),
{
    let mut s = String::new();
    push_octet(&mut s, a);
    s.append(".");
    push_octet(&mut s, b);
    s.append(".");
    push_octet(&mut s, c);
    s.append(".");
    push_octet(&mut s, d);
    proof {
        reveal_strlit(".");
        assert(s@ =~= addr_text(a as int, b as int, c as int, d as int));
    }
    s
}

} // verus!
