use vstd::prelude::*;

verus! {

/// Collects the characters of `s`, in order.
pub fn chars_of(s: &str) -> (v: Vec<char>)
    ensures
        v@ == s@,
{
    let mut v: Vec<char> = Vec::new();
    for c in it: s.chars()
        invariant
            v@ == it.seq().take(it.index()),
    {
        v.push(c);
    }
    v
}

/// Builds a `String` from a slice of characters
/// (std's `FromIterator<char>` for `String`): the string holds exactly
/// those characters, in order.
#[verifier::external_body]
pub(crate) fn string_from_chars(v: &[char]) -> (s: String)
    ensures
        s@ == v@,
{
    v.iter().collect()
}

/// `c` is one of the characters that std's `char::is_whitespace` accepts
/// among the ASCII characters (tab, line feed, vertical tab, form feed,
/// carriage return, space).
pub open spec fn is_ascii_whitespace_char(c: char) -> bool {
    c == ' ' || c == '\t' || c == '\n' || c == '\x0B' || c == '\x0C' || c == '\r'
}

pub open spec fn is_digit_char(c: char) -> bool {
    '0' <= c && c <= '9'
}

pub open spec fn is_upper_char(c: char) -> bool {
    'A' <= c && c <= 'Z'
}

pub open spec fn is_lower_char(c: char) -> bool {
    'a' <= c && c <= 'z'
}

pub open spec fn is_alpha_char(c: char) -> bool {
    is_upper_char(c) || is_lower_char(c)
}

pub open spec fn is_alnum_char(c: char) -> bool {
    is_alpha_char(c) || is_digit_char(c)
}

/// ASCII upper-casing of one character; every other character is kept.
pub open spec fn upper_char(c: char) -> char {
    if is_lower_char(c) {
        ((c as u32) - 32) as char
    } else {
        c
    }
}

pub open spec fn upper(s: Seq<char>) -> Seq<char> {
    s.map_values(|c: char| upper_char(c))
}

pub fn to_upper_char(c: char) -> (r: char)
    ensures
        r == upper_char(c),
{
    if 'a' <= c && c <= 'z' {
        let b: u8 = (c as u8) - 32;
        b as char
    } else {
        c
    }
}

/// Whether `w`, upper-cased, spells `kw`.
pub fn upper_equals(w: &[char], kw: &[char]) -> (r: bool)
    ensures
        r == (upper(w@) == kw@),
{
    if w.len() != kw.len() {
        proof {
            assert(upper(w@).len() != kw@.len());
        }
        return false;
    }
    let mut i: usize = 0;
    while i < w.len()
        invariant
            w@.len() == kw@.len(),
            0 <= i <= w@.len(),
            forall|j: int| 0 <= j < i ==> upper_char(w@[j]) == kw@[j],
        decreases w@.len() - i,
    {
        if to_upper_char(w[i]) != kw[i] {
            proof {
                assert(upper(w@)[i as int] != kw@[i as int]);
            }
            return false;
        }
        i = i + 1;
    }
    proof {
        assert(upper(w@) =~= kw@);
    }
    true
}


pub fn is_whitespace_ascii(c: char) -> (r: bool)
    ensures
        r == is_ascii_whitespace_char(c),
{
    c == ' ' || c == '\t' || c == '\n' || c == '\x0B' || c == '\x0C' || c == '\r'
}

pub fn is_digit_ascii(c: char) -> (r: bool)
    ensures
        r == is_digit_char(c),
{
    '0' <= c && c <= '9'
}

pub fn is_alpha_ascii(c: char) -> (r: bool)
    ensures
        r == is_alpha_char(c),
{
    ('A' <= c && c <= 'Z') || ('a' <= c && c <= 'z')
}

pub fn is_alnum_ascii(c: char) -> (r: bool)
    ensures
        r == is_alnum_char(c),
{
    is_alpha_ascii(c) || is_digit_ascii(c)
}


pub open spec fn all_digits(s: Seq<char>) -> bool {
    forall|i: int| 0 <= i < s.len() ==> is_digit_char(#[trigger] s[i])
}

pub open spec fn digit_value(c: char) -> nat {
    ((c as int) - ('0' as int)) as nat
}

/// The value of a sequence of decimal digits.
pub open spec fn digits_value(s: Seq<char>) -> nat
    decreases s.len(),
{
    if s.len() == 0 {
        0
    } else {
        digits_value(s.drop_last()) * 10 + digit_value(s.last())
    }
}

/// What std's `usize::from_str` accepts: an optional '+', then at least one
/// decimal digit and nothing else, of a value that fits.
pub open spec fn spec_parse_usize(s: Seq<char>) -> Option<nat> {
    let d = if s.len() > 0 && s[0] == '+' {
        s.drop_first()
    } else {
        s
    };
    if d.len() > 0 && all_digits(d) && digits_value(d) <= usize::MAX {
        Some(digits_value(d))
    } else {
        None
    }
}

pub proof fn lemma_digits_prefix_le(s: Seq<char>, i: int)
    requires
        0 <= i <= s.len(),
    ensures
        digits_value(s.take(i)) <= digits_value(s),
    decreases s.len(),
{
    if i < s.len() {
        assert(s.take(i) =~= s.drop_last().take(i));
        lemma_digits_prefix_le(s.drop_last(), i);
    } else {
        assert(s.take(i) =~= s);
    }
}

/// Parses a decimal `usize` as std's `usize::from_str` does.
pub fn parse_usize(s: &[char]) -> (r: Option<usize>)
    ensures
        match r {
            Some(v) => spec_parse_usize(s@) == Some(v as nat),
            None => spec_parse_usize(s@) is None,
        },
{
    let mut start: usize = 0;
    if s.len() > 0 && s[0] == '+' {
        start = 1;
    }
    let ghost d = if s@.len() > 0 && s@[0] == '+' {
        s@.drop_first()
    } else {
        s@
    };
    proof {
        assert(d =~= s@.subrange(start as int, s@.len() as int));
    }
    if start >= s.len() {
        return None;
    }
    let mut v: usize = 0;
    let mut i: usize = start;
    while i < s.len()
        invariant
            start <= i <= s@.len(),
            d == (if s@.len() > 0 && s@[0] == '+' {
                s@.drop_first()
            } else {
                s@
            }),
            d =~= s@.subrange(start as int, s@.len() as int),
            forall|j: int| start <= j < i ==> is_digit_char(#[trigger] s@[j]),
            v as nat == digits_value(d.take(i - start)),
        decreases s@.len() - i,
    {
        let c = s[i];
        if !is_digit_ascii(c) {
            proof {
                assert(!is_digit_char(d[i - start]));
            }
            return None;
        }
        let dv: usize = ((c as u32) - ('0' as u32)) as usize;
        proof {
            assert(d.take(i + 1 - start).drop_last() =~= d.take(i - start));
            assert(d.take(i + 1 - start).last() == c);
            assert(digit_value(c) == dv);
            assert(digits_value(d.take(i + 1 - start)) == v * 10 + dv);
        }
        match v.checked_mul(10) {
            Some(m) => match m.checked_add(dv) {
                Some(n) => {
                    v = n;
                },
                None => {
                    proof {
                        if all_digits(d) {
                            lemma_digits_prefix_le(d, i + 1 - start);
                        }
                    }
                    return None;
                },
            },
            None => {
                proof {
                    if all_digits(d) {
                        lemma_digits_prefix_le(d, i + 1 - start);
                    }
                }
                return None;
            },
        }
        i = i + 1;
    }
    proof {
        assert(d.take(i - start) =~= d);
    }
    Some(v)
}


pub open spec fn digit_char(d: nat) -> char {
    ((d + ('0' as int)) as u32) as char
}

/// The decimal digits of `n`, most significant first, without leading zeros.
pub open spec fn nat_digits(n: nat) -> Seq<char>
    decreases n,
{
    if n < 10 {
        seq![digit_char(n)]
    } else {
        nat_digits(n / 10).push(digit_char(n % 10))
    }
}

/// How std writes an integer in decimal: a '-' before negative values.
pub open spec fn int_text(i: int) -> Seq<char> {
    if i < 0 {
        seq!['-'] + nat_digits((-i) as nat)
    } else {
        nat_digits(i as nat)
    }
}

pub proof fn lemma_nat_digits(n: nat)
    ensures
        nat_digits(n).len() > 0,
        all_digits(nat_digits(n)),
        digits_value(nat_digits(n)) == n,
        n < 10 ==> nat_digits(n).len() == 1,
        n >= 10 ==> nat_digits(n).len() >= 2,
    decreases n,
{
    lemma_digit_char(n % 10);
    if n >= 10 {
        lemma_nat_digits(n / 10);
        let s = nat_digits(n);
        assert(s.drop_last() =~= nat_digits(n / 10));
        assert(s.last() == digit_char(n % 10));
        assert(digits_value(s) == digits_value(nat_digits(n / 10)) * 10 + digit_value(
            digit_char(n % 10),
        ));
        assert(n == (n / 10) * 10 + n % 10);
    } else {
        assert(n % 10 == n);
        let s = nat_digits(n);
        assert(s.drop_last() =~= Seq::<char>::empty());
        assert(digits_value(s) == digits_value(s.drop_last()) * 10 + digit_value(s.last()));
    }
}

pub proof fn lemma_digit_char(d: nat)
    requires
        d < 10,
    ensures
        is_digit_char(digit_char(d)),
        digit_value(digit_char(d)) == d,
{
    assert(((d + ('0' as int)) as u32) as char as int == d + 48);
}

/// The decimal digits of `n` (std's `usize::to_string`).
pub fn usize_text(n: usize) -> (s: String)
    ensures
        s@ == nat_digits(n as nat),
{
    let v = digits_of(n);
    string_from_chars(v.as_slice())
}

fn digits_of(n: usize) -> (v: Vec<char>)
    ensures
        v@ == nat_digits(n as nat),
    decreases n,
{
    if n < 10 {
        let mut v: Vec<char> = Vec::new();
        v.push(char_from_digit(n as u32));
        proof {
            assert(v@ =~= nat_digits(n as nat));
        }
        v
    } else {
        let mut v = digits_of(n / 10);
        v.push(char_from_digit((n % 10) as u32));
        v
    }
}

fn char_from_digit(d: u32) -> (c: char)
    requires
        d < 10,
    ensures
        c == digit_char(d as nat),
{
    let b: u8 = (d as u8) + 48;
    b as char
}

/// The decimal text of `i`, with a '-' before negative values
/// (std's `i32::to_string`).
pub fn i32_text(i: i32) -> (s: String)
    ensures
        s@ == int_text(i as int),
{
    if i < 0 {
        let wide: i64 = i as i64;
        let m: u64 = (0 - wide) as u64;
        let digits = usize_text_u64(m);
        let mut out = String::from_str("-");
        out.append(digits.as_str());
        proof {
            reveal_strlit("-");
        }
        out
    } else {
        let digits = usize_text_u64(i as u64);
        digits
    }
}

fn usize_text_u64(n: u64) -> (s: String)
    requires
        n <= 0x8000_0000,
    ensures
        s@ == nat_digits(n as nat),
{
    usize_text(n as usize)
}

/// What std's `i32::from_str` accepts: an optional sign, then at least one
/// decimal digit and nothing else, of a value in range.
pub open spec fn spec_parse_i32(s: Seq<char>) -> Option<int> {
    let neg = s.len() > 0 && s[0] == '-';
    let d = if s.len() > 0 && (s[0] == '+' || s[0] == '-') {
        s.drop_first()
    } else {
        s
    };
    if d.len() > 0 && all_digits(d) {
        let v: int = if neg {
            -(digits_value(d) as int)
        } else {
            digits_value(d) as int
        };
        if i32::MIN <= v <= i32::MAX {
            Some(v)
        } else {
            None
        }
    } else {
        None
    }
}

/// Parses a decimal `i32` as std's `i32::from_str` does.
pub fn parse_i32(s: &[char]) -> (r: Option<i32>)
    ensures
        match r {
            Some(v) => spec_parse_i32(s@) == Some(v as int),
            None => spec_parse_i32(s@) is None,
        },
{
    let neg = s.len() > 0 && s[0] == '-';
    let mut start: usize = 0;
    if s.len() > 0 && (s[0] == '+' || s[0] == '-') {
        start = 1;
    }
    let ghost d = if s@.len() > 0 && (s@[0] == '+' || s@[0] == '-') {
        s@.drop_first()
    } else {
        s@
    };
    proof {
        assert(d =~= s@.subrange(start as int, s@.len() as int));
    }
    if start >= s.len() {
        return None;
    }
    let mut v: u64 = 0;
    let mut i: usize = start;
    while i < s.len()
        invariant
            start <= i <= s@.len(),
            d == (if s@.len() > 0 && (s@[0] == '+' || s@[0] == '-') {
                s@.drop_first()
            } else {
                s@
            }),
            d =~= s@.subrange(start as int, s@.len() as int),
            forall|j: int| start <= j < i ==> is_digit_char(#[trigger] s@[j]),
            v as nat == digits_value(d.take(i - start)),
            v <= 0x8000_0000,
        decreases s@.len() - i,
    {
        let c = s[i];
        if !is_digit_ascii(c) {
            proof {
                assert(!is_digit_char(d[i - start]));
            }
            return None;
        }
        let dv: u64 = ((c as u32) - ('0' as u32)) as u64;
        proof {
            assert(d.take(i + 1 - start).drop_last() =~= d.take(i - start));
            assert(d.take(i + 1 - start).last() == c);
            assert(digits_value(d.take(i + 1 - start)) == v * 10 + dv);
        }
        let n: u64 = v * 10 + dv;
        if n > 0x8000_0000 {
            proof {
                if all_digits(d) {
                    lemma_digits_prefix_le(d, i + 1 - start);
                }
            }
            return None;
        }
        v = n;
        i = i + 1;
    }
    proof {
        assert(d.take(i - start) =~= d);
    }
    if neg {
        let r: i64 = -(v as i64);
        Some(r as i32)
    } else if v <= 0x7fff_ffff {
        Some(v as i32)
    } else {
        None
    }
}

/// Whether `s` begins with `prefix`.
pub fn starts_with_chars(s: &[char], prefix: &[char]) -> (r: bool)
    ensures
        r == (prefix@.len() <= s@.len() && s@.take(prefix@.len() as int) == prefix@),
{
    if prefix.len() > s.len() {
        return false;
    }
    let mut i: usize = 0;
    while i < prefix.len()
        invariant
            prefix@.len() <= s@.len(),
            0 <= i <= prefix@.len(),
            forall|j: int| 0 <= j < i ==> s@[j] == prefix@[j],
        decreases prefix@.len() - i,
    {
        if s[i] != prefix[i] {
            proof {
                assert(s@.take(prefix@.len() as int)[i as int] != prefix@[i as int]);
            }
            return false;
        }
        i = i + 1;
    }
    proof {
        assert(s@.take(prefix@.len() as int) =~= prefix@);
    }
    true
}

/// Whether `s` equals `t`, character by character.
pub fn chars_equal(s: &[char], t: &[char]) -> (r: bool)
    ensures
        r == (s@ == t@),
{
    if s.len() != t.len() {
        return false;
    }
    let r = starts_with_chars(s, t);
    proof {
        assert(s@.take(t@.len() as int) =~= s@);
    }
    r
}

/// The first position of `c` in `s`, if any.
pub fn find_char(s: &[char], c: char) -> (r: Option<usize>)
    ensures
        match r {
            Some(i) => i < s@.len() && s@[i as int] == c && !s@.take(i as int).contains(c),
            None => !s@.contains(c),
        },
{
    let mut i: usize = 0;
    while i < s.len()
        invariant
            0 <= i <= s@.len(),
            forall|j: int| 0 <= j < i ==> s@[j] != c,
        decreases s@.len() - i,
    {
        if s[i] == c {
            proof {
                assert forall|j: int| 0 <= j < s@.take(i as int).len() implies s@.take(
                    i as int,
                )[j] != c by {}
            }
            return Some(i);
        }
        i = i + 1;
    }
    None
}

/// The characters of `s` from `from` up to `to`.
pub fn chars_range(s: &[char], from: usize, to: usize) -> (v: Vec<char>)
    requires
        from <= to <= s@.len(),
    ensures
        v@ == s@.subrange(from as int, to as int),
{
    let mut v: Vec<char> = Vec::new();
    let mut i: usize = from;
    while i < to
        invariant
            from <= i <= to <= s@.len(),
            v@ == s@.subrange(from as int, i as int),
        decreases to - i,
    {
        v.push(s[i]);
        proof {
            assert(v@ =~= s@.subrange(from as int, i + 1));
        }
        i = i + 1;
    }
    v
}


/// Reading back the digits of `n` gives `n`.
pub proof fn lemma_parse_usize_digits(n: nat)
    requires
        n <= usize::MAX,
    ensures
        spec_parse_usize(nat_digits(n)) == Some(n),
{
    lemma_nat_digits(n);
    assert(is_digit_char(nat_digits(n)[0]));
}

/// Reading back the decimal text of an `i32` gives it.
pub proof fn lemma_parse_i32_text(i: int)
    requires
        i32::MIN <= i <= i32::MAX,
    ensures
        spec_parse_i32(int_text(i)) == Some(i),
{
    if i < 0 {
        let m = (-i) as nat;
        lemma_nat_digits(m);
        let t = int_text(i);
        assert(t.drop_first() =~= nat_digits(m));
    } else {
        lemma_nat_digits(i as nat);
        assert(is_digit_char(nat_digits(i as nat)[0]));
    }
}

/// The decimal text of an integer holds digits and at most a leading '-'.
pub proof fn lemma_int_text_chars(i: int)
    ensures
        int_text(i).len() > 0,
        forall|k: int| 0 <= k < int_text(i).len() ==> is_digit_char(#[trigger] int_text(i)[k]) || (
        k == 0 && int_text(i)[k] == '-'),
{
    if i < 0 {
        lemma_nat_digits((-i) as nat);
        assert forall|k: int| 0 <= k < int_text(i).len() implies is_digit_char(
            #[trigger] int_text(i)[k],
        ) || (k == 0 && int_text(i)[k] == '-') by {
            if k > 0 {
                assert(int_text(i)[k] == nat_digits((-i) as nat)[k - 1]);
            }
        }
    } else {
        lemma_nat_digits(i as nat);
    }
}


/// Whether two strings hold the same characters.
pub fn str_equal(a: &str, b: &str) -> (r: bool)
    ensures
        r == (a@ == b@),
{
    let x = chars_of(a);
    let y = chars_of(b);
    chars_equal(x.as_slice(), y.as_slice())
}

} // verus!
