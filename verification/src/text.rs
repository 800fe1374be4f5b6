use vstd::prelude::*;
use vstd::string::StrSliceExecFns;

verus! {

// ---------------------------------------------------------------------------
// Characters
// ---------------------------------------------------------------------------

/// An ASCII decimal digit.
pub open spec fn is_digit(c: char) -> bool {
    48 <= c as u32 <= 57
}

/// An ASCII upper-case letter.
pub open spec fn is_upper(c: char) -> bool {
    65 <= c as u32 <= 90
}

/// The numeric value of a digit; zero on any other character.
pub open spec fn digit_val(c: char) -> nat {
    if is_digit(c) {
        (c as u32 - 48) as nat
    } else {
        0
    }
}

/// The digit character for a value below ten.
pub open spec fn digit_char(d: nat) -> char {
    if d == 0 {
        '0'
    } else if d == 1 {
        '1'
    } else if d == 2 {
        '2'
    } else if d == 3 {
        '3'
    } else if d == 4 {
        '4'
    } else if d == 5 {
        '5'
    } else if d == 6 {
        '6'
    } else if d == 7 {
        '7'
    } else if d == 8 {
        '8'
    } else {
        '9'
    }
}

pub fn digit_char_exec(d: u16) -> (c: char)
    requires
        d < 10,
    ensures
        c == digit_char(d as nat),
{
    if d == 0 {
        '0'
    } else if d == 1 {
        '1'
    } else if d == 2 {
        '2'
    } else if d == 3 {
        '3'
    } else if d == 4 {
        '4'
    } else if d == 5 {
        '5'
    } else if d == 6 {
        '6'
    } else if d == 7 {
        '7'
    } else if d == 8 {
        '8'
    } else {
        '9'
    }
}

pub proof fn lemma_digit_char_val(c: char)
    requires
        is_digit(c),
    ensures
        digit_char(digit_val(c)) == c,
{
    let u = c as u32;
    assert(u == 48 ==> c == '0');
    assert(u == 49 ==> c == '1');
    assert(u == 50 ==> c == '2');
    assert(u == 51 ==> c == '3');
    assert(u == 52 ==> c == '4');
    assert(u == 53 ==> c == '5');
    assert(u == 54 ==> c == '6');
    assert(u == 55 ==> c == '7');
    assert(u == 56 ==> c == '8');
    assert(u == 57 ==> c == '9');
}

// ---------------------------------------------------------------------------
// Decimal numerals
// ---------------------------------------------------------------------------

/// The value of a digit string, read left to right.
pub open spec fn numeral_val(s: Seq<char>) -> nat
    decreases s.len(),
{
    if s.len() == 0 {
        0
    } else {
        numeral_val(s.drop_last()) * 10 + digit_val(s.last())
    }
}

pub open spec fn all_digits(s: Seq<char>) -> bool {
    forall|i: int| 0 <= i < s.len() ==> is_digit(#[trigger] s[i])
}

/// A canonical numeral: at least one digit, and no leading zero.
pub open spec fn is_canonical_numeral(s: Seq<char>) -> bool {
    &&& all_digits(s)
    &&& s.len() >= 1
    &&& (s.len() > 1 ==> s[0] != '0')
}

/// A canonical numeral whose value fits in sixteen bits.
pub open spec fn is_u16_numeral(s: Seq<char>) -> bool {
    is_canonical_numeral(s) && numeral_val(s) <= 65535
}

/// The canonical decimal rendering of a number.
pub open spec fn dec_rep(n: nat) -> Seq<char>
    decreases n,
{
    if n < 10 {
        seq![digit_char(n)]
    } else {
        dec_rep(n / 10).push(digit_char(n % 10))
    }
}

/// A numeral's value never shrinks as the numeral is extended to the right.
pub proof fn lemma_numeral_prefix_le(s: Seq<char>, i: int)
    requires
        0 <= i <= s.len(),
    ensures
        numeral_val(s.subrange(0, i)) <= numeral_val(s),
    decreases s.len() - i,
{
    if i < s.len() {
        let t = s.subrange(0, s.len() - 1);
        if i == s.len() - 1 {
            assert(s.drop_last() =~= s.subrange(0, i));
        } else {
            lemma_numeral_prefix_le(t, i);
            assert(t.subrange(0, i) =~= s.subrange(0, i));
            assert(s.drop_last() =~= t);
        }
    } else {
        assert(s.subrange(0, i) =~= s);
    }
}

/// A digit string that does not start with zero has a positive value.
pub proof fn lemma_nonzero_lead(s: Seq<char>)
    requires
        all_digits(s),
        s.len() >= 1,
        s[0] != '0',
    ensures
        numeral_val(s) >= 1,
    decreases s.len(),
{
    if s.len() == 1 {
        lemma_digit_char_val(s[0]);
        assert(digit_val(s[0]) >= 1);
    } else {
        lemma_nonzero_lead(s.drop_last());
    }
}

/// The canonical rendering of a small number is a canonical numeral with
/// that value.
pub proof fn lemma_dec_rep_u16(n: nat)
    requires
        n <= 65535,
    ensures
        is_u16_numeral(dec_rep(n)),
        numeral_val(dec_rep(n)) == n,
        n >= 1 ==> dec_rep(n)[0] != '0',
    decreases n,
{
    if n < 10 {
        let s = dec_rep(n);
        assert(s == seq![digit_char(n)]);
        assert(s.len() == 1);
        assert(s.last() == digit_char(n));
        assert(s.drop_last() =~= Seq::<char>::empty());
        assert(numeral_val(Seq::<char>::empty()) == 0);
        assert(numeral_val(s) == numeral_val(s.drop_last()) * 10 + digit_val(s.last()));
        assert(numeral_val(s) == digit_val(digit_char(n)));
    } else {
        lemma_dec_rep_u16(n / 10);
        let s = dec_rep(n);
        let t = dec_rep(n / 10);
        assert(s == t.push(digit_char(n % 10)));
        assert(s.drop_last() =~= t);
        assert(s.last() == digit_char(n % 10));
        assert(digit_val(digit_char(n % 10)) == n % 10);
        assert(numeral_val(s) == numeral_val(t) * 10 + n % 10);
        assert(numeral_val(t) == n / 10);
        assert(n / 10 * 10 + n % 10 == n) by (nonlinear_arith);
        assert(s[0] == t[0]);
        assert(n / 10 >= 1);
    }
}

/// Rendering the value of a canonical numeral gives the numeral back.
pub proof fn lemma_numeral_canonical(s: Seq<char>)
    requires
        is_u16_numeral(s),
    ensures
        dec_rep(numeral_val(s)) == s,
    decreases s.len(),
{
    let v = numeral_val(s);
    if s.len() == 1 {
        assert(s.drop_last() =~= Seq::<char>::empty());
        assert(v == digit_val(s[0]));
        lemma_digit_char_val(s[0]);
        assert(dec_rep(v) == seq![digit_char(v)]);
        assert(dec_rep(v) =~= s);
    } else {
        let t = s.drop_last();
        let c = s.last();
        assert(t[0] == s[0]);
        assert(all_digits(t));
        lemma_numeral_prefix_le(s, s.len() - 1);
        assert(t =~= s.subrange(0, s.len() - 1));
        assert(numeral_val(t) <= numeral_val(s));
        assert(is_u16_numeral(t));
        lemma_nonzero_lead(t);
        lemma_numeral_canonical(t);
        assert(v == numeral_val(t) * 10 + digit_val(c));
        assert(digit_val(c) < 10);
        assert(numeral_val(t) >= 1);
        assert(v >= 10) by (nonlinear_arith)
            requires
                v == numeral_val(t) * 10 + digit_val(c),
                numeral_val(t) >= 1,
        ;
        assert(v / 10 == numeral_val(t) && v % 10 == digit_val(c)) by (nonlinear_arith)
            requires
                v == numeral_val(t) * 10 + digit_val(c),
                digit_val(c) < 10,
        ;
        lemma_digit_char_val(c);
        assert(dec_rep(v) == dec_rep(numeral_val(t)).push(digit_char(digit_val(c))));
        assert(dec_rep(v) =~= s);
    }
}

/// Parses the digit span `[from, to)` of `s` as a canonical decimal numeral
/// that fits in sixteen bits.
pub fn parse_u16(s: &Vec<char>, from: usize, to: usize) -> (r: Option<u16>)
    requires
        from <= to <= s@.len(),
    ensures
        r is Some <==> is_u16_numeral(s@.subrange(from as int, to as int)),
        r matches Some(v) ==> v as nat == numeral_val(s@.subrange(from as int, to as int)),
{
    let ghost full = s@.subrange(from as int, to as int);
    if from == to {
        return None;
    }
    if to - from > 1 && s[from] == '0' {
        return None;
    }
    let mut acc: u32 = 0;
    let mut i: usize = from;
    while i < to
        invariant
            from <= i <= to <= s@.len(),
            full == s@.subrange(from as int, to as int),
            acc <= 65535,
            acc as nat == numeral_val(s@.subrange(from as int, i as int)),
            all_digits(s@.subrange(from as int, i as int)),
        decreases to - i,
    {
        let c = s[i];
        let u = c as u32;
        if u < 48 || u > 57 {
            proof {
                assert(full[i - from] == s@[i as int]);
                assert(!is_digit(full[i - from]));
            }
            return None;
        }
        proof {
            let pre = s@.subrange(from as int, i as int);
            let ext = s@.subrange(from as int, i + 1);
            assert(ext =~= pre.push(s@[i as int]));
            assert(ext.drop_last() =~= pre);
            assert(digit_val(s@[i as int]) == (u - 48) as nat);
        }
        acc = acc * 10 + (u - 48);
        if acc > 65535 {
            proof {
                let pre = s@.subrange(from as int, i + 1);
                assert(pre =~= full.subrange(0, i + 1 - from));
                lemma_numeral_prefix_le(full, i + 1 - from);
                assert(numeral_val(full) >= acc as nat);
            }
            return None;
        }
        i += 1;
    }
    proof {
        assert(s@.subrange(from as int, i as int) =~= full);
        assert(is_canonical_numeral(full));
    }
    Some(acc as u16)
}

/// Appends the canonical decimal rendering of `n` to `out`.
pub fn push_dec(n: u16, out: &mut Vec<char>)
    ensures
        final(out)@ == old(out)@ + dec_rep(n as nat),
    decreases n,
{
    if n < 10 {
        out.push(digit_char_exec(n));
        proof {
            assert(out@ =~= old(out)@ + dec_rep(n as nat));
        }
    } else {
        push_dec(n / 10, out);
        out.push(digit_char_exec(n % 10));
        proof {
            assert(out@ =~= old(out)@ + dec_rep(n as nat));
        }
    }
}

// ---------------------------------------------------------------------------
// Strings and character vectors
// ---------------------------------------------------------------------------

/// The characters of a string, in order.
pub fn str_to_chars(s: &str) -> (r: Vec<char>)
    ensures
        r@ == s@,
{
    let len = s.unicode_len();
    let mut out: Vec<char> = Vec::new();
    let mut i: usize = 0;
    while i < len
        invariant
            i <= len,
            len == s@.len(),
            out@ == s@.subrange(0, i as int),
        decreases len - i,
    {
        out.push(s.get_char(i));
        proof {
            assert(out@ =~= s@.subrange(0, i + 1));
        }
        i += 1;
    }
    proof {
        assert(out@ =~= s@);
    }
    out
}

/// The index of the first occurrence of `c` in `s`, or `s.len()` when there
/// is none.
pub open spec fn first_pos(s: Seq<char>, c: char) -> nat
    decreases s.len(),
{
    if s.len() == 0 {
        0
    } else if s[0] == c {
        0
    } else {
        1 + first_pos(s.skip(1), c)
    }
}

/// A scan that stops at position `k` on `c`, having seen none before, has
/// found the first occurrence.
pub proof fn lemma_first_pos_at(s: Seq<char>, c: char, k: int)
    requires
        0 <= k <= s.len(),
        forall|m: int| 0 <= m < k ==> s[m] != c,
        k < s.len() ==> s[k] == c,
    ensures
        first_pos(s, c) == k,
    decreases k,
{
    if k == 0 {
        if s.len() > 0 && s[0] != c {
            lemma_first_pos_bounds(s, c);
        }
    } else {
        assert forall|m: int| 0 <= m < k - 1 implies s.skip(1)[m] != c by {
            assert(s.skip(1)[m] == s[m + 1]);
        }
        assert(k - 1 < s.skip(1).len() ==> s.skip(1)[k - 1] == s[k]);
        lemma_first_pos_at(s.skip(1), c, k - 1);
    }
}

pub proof fn lemma_first_pos_bounds(s: Seq<char>, c: char)
    ensures
        first_pos(s, c) <= s.len(),
        first_pos(s, c) < s.len() ==> s[first_pos(s, c) as int] == c,
        forall|m: int| 0 <= m < first_pos(s, c) ==> s[m] != c,
    decreases s.len(),
{
    if s.len() != 0 && s[0] != c {
        lemma_first_pos_bounds(s.skip(1), c);
        assert forall|m: int| 0 <= m < first_pos(s, c) implies s[m] != c by {
            if m > 0 {
                assert(s.skip(1)[m - 1] == s[m]);
            }
        }
        if first_pos(s, c) < s.len() {
            assert(s.skip(1)[first_pos(s, c) - 1] == s[first_pos(s, c) as int]);
        }
    }
}

/// Appends the characters of a string to `out`.
pub fn push_str_chars(out: &mut Vec<char>, s: &str)
    ensures
        final(out)@ == old(out)@ + s@,
{
    let len = s.unicode_len();
    let mut i: usize = 0;
    while i < len
        invariant
            i <= len,
            len == s@.len(),
            out@ == old(out)@ + s@.subrange(0, i as int),
        decreases len - i,
    {
        out.push(s.get_char(i));
        proof {
            assert(out@ =~= old(out)@ + s@.subrange(0, i + 1));
        }
        i += 1;
    }
    proof {
        assert(out@ =~= old(out)@ + s@);
    }
}

/// Relies on `String`'s `FromIterator<char>` implementation: collecting an
/// iterator of characters yields a string holding exactly those characters.
#[verifier::external_body]
pub fn chars_to_string(v: &Vec<char>) -> (r: String)
    ensures
        r@ == v@,
{
    v.iter().collect()
}

/// Case-sensitive equality between a span of a character vector and a string.
pub fn chars_eq(a: &Vec<char>, from: usize, to: usize, b: &str) -> (r: bool)
    requires
        from <= to <= a@.len(),
    ensures
        r == (a@.subrange(from as int, to as int) == b@),
{
    let blen = b.unicode_len();
    if to - from != blen {
        proof {
            assert(a@.subrange(from as int, to as int).len() != b@.len());
        }
        return false;
    }
    let mut i: usize = 0;
    while i < blen
        invariant
            i <= blen,
            blen == b@.len(),
            from <= to <= a@.len(),
            to - from == blen,
            forall|j: int| 0 <= j < i ==> a@[from + j] == b@[j],
        decreases blen - i,
    {
        if a[from + i] != b.get_char(i) {
            proof {
                assert(a@.subrange(from as int, to as int)[i as int] != b@[i as int]);
            }
            return false;
        }
        i += 1;
    }
    proof {
        assert(a@.subrange(from as int, to as int) =~= b@);
    }
    true
}

/// Two characters that are equal up to ASCII case.
pub open spec fn char_eq_ci(a: char, b: char) -> bool {
    ||| a == b
    ||| (is_upper(a) && b as u32 == a as u32 + 32)
    ||| (is_upper(b) && a as u32 == b as u32 + 32)
}

/// Two strings that are equal up to ASCII case.
pub open spec fn str_eq_ci(a: Seq<char>, b: Seq<char>) -> bool {
    a.len() == b.len() && forall|i: int| 0 <= i < a.len() ==> char_eq_ci(a[i], #[trigger] b[i])
}

/// ASCII-case-insensitive equality between a span of a character vector and a
/// string.
pub fn chars_eq_ci(a: &Vec<char>, from: usize, to: usize, b: &str) -> (r: bool)
    requires
        from <= to <= a@.len(),
    ensures
        r == str_eq_ci(a@.subrange(from as int, to as int), b@),
{
    let blen = b.unicode_len();
    if to - from != blen {
        return false;
    }
    let mut i: usize = 0;
    while i < blen
        invariant
            i <= blen,
            blen == b@.len(),
            from <= to <= a@.len(),
            to - from == blen,
            forall|j: int| 0 <= j < i ==> char_eq_ci(a@[from + j], b@[j]),
        decreases blen - i,
    {
        let x = a[from + i];
        let y = b.get_char(i);
        let xu = x as u32;
        let yu = y as u32;
        let same = x == y || (65 <= xu && xu <= 90 && yu == xu + 32) || (65 <= yu && yu <= 90 && xu
            == yu + 32);
        if !same {
            proof {
                let sub = a@.subrange(from as int, to as int);
                assert(sub[i as int] == a@[from + i]);
                assert(!char_eq_ci(sub[i as int], b@[i as int]));
            }
            return false;
        }
        i += 1;
    }
    proof {
        let sub = a@.subrange(from as int, to as int);
        assert(forall|j: int| 0 <= j < sub.len() ==> char_eq_ci(sub[j], #[trigger] b@[j]));
    }
    true
}

} // verus!
