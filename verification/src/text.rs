//! Character-level helpers: decimal rendering, UTF-16 length limits and
//! whitespace tests, stated over `Seq<char>`.
use vstd::prelude::*;

verus! {

/// The characters of `s`, in order.
pub fn chars_of(s: &str) -> (v: Vec<char>)
    ensures
        v@ == s@,
{
    let mut v: Vec<char> = Vec::new();
    for c in it: s.chars()
        invariant
            v@ == it.seq().take(it.index()),
            it.seq() == s@,
    {
        v.push(c);
        assert(it.seq().take(it.index() + 1) == it.seq().take(it.index()).push(c));
    }
    v
}

/// Appends one character (`String::push`).
#[verifier::external_body]
pub(crate) fn push_char(s: &mut String, c: char)
    ensures
        final(s)@ == old(s)@.push(c),
{
    s.push(c);
}

/// Appends the characters of `t` (`String::push_str`).
#[verifier::external_body]
pub(crate) fn push_str(s: &mut String, t: &str)
    ensures
        final(s)@ == old(s)@ + t@,
{
    s.push_str(t);
}

/// A string made of the given characters.
pub fn string_of(v: &Vec<char>) -> (s: String)
    ensures
        s@ == v@,
{
    let mut s = String::new();
    for i in 0..v.len()
        invariant
            s@ == v@.take(i as int),
    {
        push_char(&mut s, v[i]);
        assert(v@.take(i + 1) == v@.take(i as int).push(v@[i as int]));
    }
    assert(v@.take(v.len() as int) == v@);
    s
}

/// Whether two strings hold the same characters.
pub fn same_text(a: &str, b: &str) -> (r: bool)
    ensures
        r == (a@ == b@),
{
    let x = chars_of(a);
    let y = chars_of(b);
    if x.len() != y.len() {
        return false;
    }
    for i in 0..x.len()
        invariant
            x@ == a@,
            y@ == b@,
            x@.len() == y@.len(),
            forall|j: int| 0 <= j < i ==> x@[j] == y@[j],
    {
        if x[i] != y[i] {
            return false;
        }
    }
    assert(x@ =~= y@);
    true
}

/// Whether `s` begins with `prefix`.
pub fn starts_with(s: &str, prefix: &str) -> (r: bool)
    ensures
        r == (prefix@.len() <= s@.len() && s@.take(prefix@.len() as int) == prefix@),
{
    let x = chars_of(s);
    let p = chars_of(prefix);
    if p.len() > x.len() {
        return false;
    }
    for i in 0..p.len()
        invariant
            x@ == s@,
            p@ == prefix@,
            p@.len() <= x@.len(),
            forall|j: int| 0 <= j < i ==> x@[j] == p@[j],
    {
        if x[i] != p[i] {
            assert(s@.take(prefix@.len() as int)[i as int] != prefix@[i as int]);
            return false;
        }
    }
    assert(s@.take(prefix@.len() as int) =~= prefix@);
    true
}

// ---------------------------------------------------------------------
// UTF-16 lengths
// ---------------------------------------------------------------------

/// Number of UTF-16 code units that encode `c` (`char::len_utf16`).
pub open spec fn utf16_width(c: char) -> nat {
    if (c as u32) < 0x10000 {
        1
    } else {
        2
    }
}

/// Number of UTF-16 code units that encode `s`.
pub open spec fn utf16_units(s: Seq<char>) -> nat
    decreases s.len(),
{
    if s.len() == 0 {
        0
    } else {
        utf16_units(s.drop_last()) + utf16_width(s.last())
    }
}

/// Length of the longest prefix of `s` whose UTF-16 length is at most `limit`.
pub open spec fn utf16_fit_len(s: Seq<char>, limit: nat) -> nat
    decreases s.len(),
{
    if utf16_units(s) <= limit || s.len() == 0 {
        s.len()
    } else {
        utf16_fit_len(s.drop_last(), limit)
    }
}

/// The longest prefix of `s` whose UTF-16 length is at most `limit`.
pub open spec fn utf16_truncated(s: Seq<char>, limit: nat) -> Seq<char> {
    s.take(utf16_fit_len(s, limit) as int)
}

/// A truncated text never exceeds the limit.
pub proof fn lemma_truncated_fits(s: Seq<char>, limit: nat)
    ensures
        utf16_units(utf16_truncated(s, limit)) <= limit,
        utf16_fit_len(s, limit) <= s.len(),
        utf16_truncated(s, limit).len() <= s.len(),
    decreases s.len(),
{
    if utf16_units(s) <= limit || s.len() == 0 {
        assert(s.take(s.len() as int) =~= s);
    } else {
        lemma_truncated_fits(s.drop_last(), limit);
        let k = utf16_fit_len(s.drop_last(), limit);
        assert(s.drop_last().take(k as int) =~= s.take(k as int));
    }
}

/// `char::len_utf16`.
pub fn char_utf16_width(c: char) -> (w: usize)
    ensures
        w == utf16_width(c),
{
    if (c as u32) < 0x10000 {
        1
    } else {
        2
    }
}

proof fn lemma_units_prefix_monotone(s: Seq<char>, i: int, j: int)
    requires
        0 <= i <= j <= s.len(),
    ensures
        utf16_units(s.take(i)) <= utf16_units(s.take(j)),
    decreases j - i,
{
    if i < j {
        lemma_units_prefix_monotone(s, i, j - 1);
        assert(s.take(j).drop_last() == s.take(j - 1));
    }
}

proof fn lemma_fit_len_characterized(s: Seq<char>, limit: nat, k: int)
    requires
        0 <= k <= s.len(),
        utf16_units(s.take(k)) <= limit,
        k < s.len() ==> utf16_units(s.take(k + 1)) > limit,
    ensures
        utf16_fit_len(s, limit) == k,
    decreases s.len(),
{
    assert(s.take(s.len() as int) == s);
    if k == s.len() {
    } else {
        lemma_units_prefix_monotone(s, k + 1, s.len() as int);
        let t = s.drop_last();
        assert(t.take(k) =~= s.take(k));
        if k + 1 <= t.len() {
            assert(t.take(k + 1) =~= s.take(k + 1));
        } else {
            assert(t.take(k) =~= t);
        }
        lemma_fit_len_characterized(t, limit, k);
    }
}

/// Keeps the longest prefix of `content` whose UTF-16 length is at most `limit`.
pub fn truncate_utf16(content: &str, limit: usize) -> (r: String)
    ensures
        r@ == utf16_truncated(content@, limit as nat),
{
    let cs = chars_of(content);
    let mut out = String::new();
    let mut used: usize = 0;
    let mut i: usize = 0;
    while i < cs.len()
        invariant
            cs@ == content@,
            i <= cs@.len(),
            out@ == cs@.take(i as int),
            used == utf16_units(cs@.take(i as int)),
            used <= limit,
        decreases cs@.len() - i,
    {
        let w = char_utf16_width(cs[i]);
        assert(cs@.take(i + 1).drop_last() == cs@.take(i as int));
        if w > limit - used {
            proof {
                lemma_fit_len_characterized(cs@, limit as nat, i as int);
            }
            return out;
        }
        push_char(&mut out, cs[i]);
        used = used + w;
        i = i + 1;
    }
    proof {
        lemma_fit_len_characterized(cs@, limit as nat, i as int);
    }
    out
}

// ---------------------------------------------------------------------
// Decimal rendering
// ---------------------------------------------------------------------

/// The character of decimal digit `d`.
pub open spec fn digit_char(d: int) -> char {
    (48 + d) as char
}

/// Decimal digits of a natural number, most significant first.
pub open spec fn nat_digits(n: nat) -> Seq<char>
    decreases n,
{
    if n < 10 {
        seq![digit_char(n as int)]
    } else {
        nat_digits(n / 10).push(digit_char((n % 10) as int))
    }
}

/// `n` written in decimal, with a leading `-` when negative (`{}`).
pub open spec fn decimal(n: int) -> Seq<char> {
    if n < 0 {
        seq!['-'] + nat_digits((-n) as nat)
    } else {
        nat_digits(n as nat)
    }
}

proof fn lemma_nat_digits_shape(n: nat)
    ensures
        nat_digits(n).len() >= 1,
        n >= 10 ==> nat_digits(n).len() >= 2,
        nat_digits(n).last() == digit_char((n % 10) as int),
        forall|i: int| 0 <= i < nat_digits(n).len() ==> '0' <= #[trigger] nat_digits(n)[i] <= '9',
    decreases n,
{
    if n >= 10 {
        lemma_nat_digits_shape(n / 10);
        let d = nat_digits(n / 10);
        assert forall|i: int| 0 <= i < nat_digits(n).len() implies '0' <= #[trigger] nat_digits(n)[i] <= '9' by {
            if i < d.len() {
                assert(nat_digits(n)[i] == d[i]);
            }
        }
    }
}

/// Different numbers are written differently.
pub proof fn lemma_decimal_injective(a: int, b: int)
    requires
        decimal(a) == decimal(b),
    ensures
        a == b,
{
    if a < 0 && b < 0 {
        assert(nat_digits((-a) as nat) == decimal(a).drop_first());
        assert(nat_digits((-b) as nat) == decimal(b).drop_first());
        lemma_nat_digits_injective((-a) as nat, (-b) as nat);
    } else if a >= 0 && b >= 0 {
        lemma_nat_digits_injective(a as nat, b as nat);
    } else if a < 0 {
        lemma_nat_digits_shape(b as nat);
        assert(decimal(a)[0] == '-');
    } else {
        lemma_nat_digits_shape(a as nat);
        assert(decimal(b)[0] == '-');
    }
}

proof fn lemma_nat_digits_injective(a: nat, b: nat)
    requires
        nat_digits(a) == nat_digits(b),
    ensures
        a == b,
    decreases a,
{
    lemma_nat_digits_shape(a);
    lemma_nat_digits_shape(b);
    if a >= 10 && b >= 10 {
        assert(nat_digits(a / 10) == nat_digits(a).drop_last());
        assert(nat_digits(b / 10) == nat_digits(b).drop_last());
        lemma_nat_digits_injective(a / 10, b / 10);
        assert(digit_char((a % 10) as int) == digit_char((b % 10) as int));
        assert((a % 10) == (b % 10));
    } else if a < 10 && b < 10 {
        assert(nat_digits(a)[0] == nat_digits(b)[0]);
        assert(digit_char(a as int) == digit_char(b as int));
    }
}

/// `n` written in decimal, zero-padded to at least two characters (`{:02}`).
pub open spec fn decimal_width2(n: int) -> Seq<char> {
    if 0 <= n < 10 {
        seq!['0', digit_char(n)]
    } else {
        decimal(n)
    }
}

fn push_nat_digits(s: &mut String, m: u64)
    ensures
        final(s)@ == old(s)@ + nat_digits(m as nat),
    decreases m,
{
    if m >= 10 {
        push_nat_digits(s, m / 10);
    }
    let d: u8 = (m % 10) as u8;
    let c: char = (48u8 + d) as char;
    assert(c == digit_char((m % 10) as int));
    push_char(s, c);
    proof {
        if m >= 10 {
            assert(nat_digits(m as nat) == nat_digits((m / 10) as nat).push(c));
        } else {
            assert(nat_digits(m as nat) == seq![c]);
        }
    }
}

/// Appends `n` in decimal (`{}`).
pub fn push_decimal(s: &mut String, n: i64)
    ensures
        final(s)@ == old(s)@ + decimal(n as int),
{
    if n < 0 {
        push_char(s, '-');
        let m: u64 = if n == i64::MIN {
            9223372036854775808u64
        } else {
            (-n) as u64
        };
        push_nat_digits(s, m);
        assert(seq!['-'] + nat_digits(m as nat) =~= decimal(n as int));
    } else {
        push_nat_digits(s, n as u64);
    }
}

/// Appends `n` in decimal, zero-padded to two characters (`{:02}`).
pub fn push_decimal_width2(s: &mut String, n: i64)
    ensures
        final(s)@ == old(s)@ + decimal_width2(n as int),
{
    if 0 <= n && n < 10 {
        push_char(s, '0');
        push_nat_digits(s, n as u64);
        assert(nat_digits(n as nat) == seq![digit_char(n as int)]);
        assert(seq!['0'] + seq![digit_char(n as int)] =~= decimal_width2(n as int));
    } else {
        push_decimal(s, n);
    }
}

/// Appends an unsigned number in decimal (`{}`).
pub fn push_u64(s: &mut String, n: u64)
    ensures
        final(s)@ == old(s)@ + decimal(n as int),
{
    push_nat_digits(s, n);
}

/// Appends an unsigned count in decimal (`{}`).
pub fn push_count(s: &mut String, n: usize)
    ensures
        final(s)@ == old(s)@ + decimal(n as int),
{
    push_nat_digits(s, n as u64);
}

/// `s` with every trailing `/` removed (`trim_end_matches('/')`).
pub open spec fn without_trailing_slashes(s: Seq<char>) -> Seq<char>
    decreases s.len(),
{
    if s.len() > 0 && s.last() == '/' {
        without_trailing_slashes(s.drop_last())
    } else {
        s
    }
}

/// `s.trim_end_matches('/')`.
pub fn trim_trailing_slashes(s: &str) -> (r: String)
    ensures
        r@ == without_trailing_slashes(s@),
{
    let cs = chars_of(s);
    let mut n = cs.len();
    assert(cs@.take(n as int) =~= cs@);
    while n > 0 && cs[n - 1] == '/'
        invariant
            cs@ == s@,
            n <= cs@.len(),
            without_trailing_slashes(cs@.take(n as int)) == without_trailing_slashes(cs@),
        decreases n,
    {
        assert(cs@.take(n as int).drop_last() =~= cs@.take(n - 1));
        n = n - 1;
    }
    let mut out: Vec<char> = Vec::new();
    for i in 0..n
        invariant
            cs@ == s@,
            n <= cs@.len(),
            out@ == cs@.take(i as int),
    {
        out.push(cs[i]);
        assert(cs@.take(i + 1) =~= cs@.take(i as int).push(cs@[i as int]));
    }
    assert(cs@.take(0) =~= cs@.take(0));
    proof {
        let t = cs@.take(n as int);
        if t.len() > 0 {
            assert(t.last() == cs@[n - 1]);
        }
    }
    assert(n == cs@.len() ==> cs@.take(n as int) =~= cs@);
    string_of(&out)
}

// ---------------------------------------------------------------------
// Whitespace
// ---------------------------------------------------------------------

/// Unicode `White_Space`, as tested by `char::is_whitespace`.
pub open spec fn is_white_space(c: char) -> bool {
    let u = c as u32;
    ||| 0x09 <= u <= 0x0d
    ||| u == 0x20
    ||| u == 0x85
    ||| u == 0xa0
    ||| u == 0x1680
    ||| 0x2000 <= u <= 0x200a
    ||| u == 0x2028
    ||| u == 0x2029
    ||| u == 0x202f
    ||| u == 0x205f
    ||| u == 0x3000
}

/// `char::is_whitespace`: true exactly for the Unicode `White_Space`
/// characters listed in `is_white_space`, as std documents.
#[verifier::external_body]
fn char_is_whitespace(c: char) -> (r: bool)
    ensures
        r == is_white_space(c),
{
    c.is_whitespace()
}

/// Whether `s` holds nothing but whitespace (`s.trim().is_empty()`).
pub open spec fn is_blank_text(s: Seq<char>) -> bool {
    forall|i: int| 0 <= i < s.len() ==> is_white_space(#[trigger] s[i])
}

/// `s.trim().is_empty()`.
pub fn is_blank(s: &str) -> (r: bool)
    ensures
        r == is_blank_text(s@),
{
    let cs = chars_of(s);
    for i in 0..cs.len()
        invariant
            cs@ == s@,
            forall|j: int| 0 <= j < i ==> is_white_space(#[trigger] cs@[j]),
    {
        if !char_is_whitespace(cs[i]) {
            return false;
        }
    }
    true
}

} // verus!
