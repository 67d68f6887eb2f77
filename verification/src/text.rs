use vstd::prelude::*;

verus! {

broadcast use vstd::string::group_string_axioms;

/// The characters of a string slice.
pub fn chars_of(s: &str) -> (v: Vec<char>)
    ensures
        v@ == s@,
{
    let mut v: Vec<char> = Vec::new();
    for c in it: s.chars()
        invariant
            v@ == it.seq().take(it.index() as int),
    {
        v.push(c);
    }
    v
}

/// Unicode `White_Space`, the set that `char::is_whitespace` tests.
pub open spec fn is_whitespace(c: char) -> bool {
    let u = c as u32;
    (0x09 <= u <= 0x0D) || u == 0x20 || u == 0x85 || u == 0xA0 || u == 0x1680 || (0x2000 <= u
        <= 0x200A) || u == 0x2028 || u == 0x2029 || u == 0x202F || u == 0x205F || u == 0x3000
}

/// Whether `c` is a Unicode white-space character.
pub fn char_is_whitespace(c: char) -> (b: bool)
    ensures
        b == is_whitespace(c),
{
    let u = c as u32;
    (0x09 <= u && u <= 0x0D) || u == 0x20 || u == 0x85 || u == 0xA0 || u == 0x1680 || (0x2000 <= u
        && u <= 0x200A) || u == 0x2028 || u == 0x2029 || u == 0x202F || u == 0x205F || u == 0x3000
}

/// `s` without leading white space.
pub open spec fn trim_start(s: Seq<char>) -> Seq<char>
    decreases s.len(),
{
    if s.len() > 0 && is_whitespace(s[0]) {
        trim_start(s.drop_first())
    } else {
        s
    }
}

/// `s` without trailing white space.
pub open spec fn trim_end(s: Seq<char>) -> Seq<char>
    decreases s.len(),
{
    if s.len() > 0 && is_whitespace(s.last()) {
        trim_end(s.drop_last())
    } else {
        s
    }
}

/// `s` without leading or trailing white space, as `str::trim` gives it.
pub open spec fn trim(s: Seq<char>) -> Seq<char> {
    trim_end(trim_start(s))
}

/// `p` is a prefix of `s`.
pub open spec fn starts_with(s: Seq<char>, p: Seq<char>) -> bool {
    p.len() <= s.len() && s.subrange(0, p.len() as int) == p
}

/// `s` with every leading copy of `p` removed, as `str::trim_start_matches`
/// gives it for a non-empty pattern.
pub open spec fn strip_prefixes(s: Seq<char>, p: Seq<char>) -> Seq<char>
    decreases s.len(),
{
    if p.len() > 0 && starts_with(s, p) {
        strip_prefixes(s.subrange(p.len() as int, s.len() as int), p)
    } else {
        s
    }
}

/// The pieces of `s` between commas, as `str::split(",")` gives them: one
/// more piece than there are commas, empty pieces included.
pub open spec fn split_commas(s: Seq<char>) -> Seq<Seq<char>>
    decreases s.len(),
{
    if s.len() == 0 {
        seq![Seq::empty()]
    } else {
        let prev = split_commas(s.drop_last());
        if s.last() == ',' {
            prev.push(Seq::empty())
        } else {
            prev.update(prev.len() - 1, prev.last().push(s.last()))
        }
    }
}

/// An ASCII decimal digit.
pub open spec fn is_digit(c: char) -> bool {
    '0' <= c && c <= '9'
}

/// The value of a string of decimal digits.
pub open spec fn digits_value(s: Seq<char>) -> nat
    decreases s.len(),
{
    if s.len() == 0 {
        0
    } else {
        digits_value(s.drop_last()) * 10 + (s.last() as u32 - '0' as u32) as nat
    }
}

/// `s` without one leading `+`.
pub open spec fn unsigned_digits(s: Seq<char>) -> Seq<char> {
    if s.len() > 0 && s[0] == '+' {
        s.drop_first()
    } else {
        s
    }
}

/// Every character of `s` is a decimal digit.
pub open spec fn all_digits(s: Seq<char>) -> bool {
    forall|i: int| 0 <= i < s.len() ==> is_digit(#[trigger] s[i])
}

/// The unsigned number that `s` spells, as `u64::from_str` and its narrower
/// kin read it: an optional `+`, then one or more decimal digits, with a value
/// of at most `max`; `None` for anything else.
pub open spec fn parse_unsigned(s: Seq<char>, max: nat) -> Option<nat> {
    let digits = unsigned_digits(s);
    if digits.len() > 0 && all_digits(digits) && digits_value(digits) <= max {
        Some(digits_value(digits))
    } else {
        None
    }
}

/// Same contents, same slice.
pub fn chars_equal(a: &Vec<char>, b: &Vec<char>) -> (r: bool)
    ensures
        r == (a@ == b@),
{
    if a.len() != b.len() {
        return false;
    }
    let mut i: usize = 0;
    while i < a.len()
        invariant
            a@.len() == b@.len(),
            i <= a@.len(),
            forall|j: int| 0 <= j < i ==> a@[j] == b@[j],
        decreases a@.len() - i,
    {
        if a[i] != b[i] {
            return false;
        }
        i = i + 1;
    }
    assert(a@ =~= b@);
    true
}

/// Whether `cs[lo..hi]` starts with `p`.
pub fn starts_with_at(cs: &Vec<char>, lo: usize, hi: usize, p: &Vec<char>) -> (r: bool)
    requires
        lo <= hi <= cs@.len(),
    ensures
        r == starts_with(cs@.subrange(lo as int, hi as int), p@),
{
    if p.len() > hi - lo {
        return false;
    }
    let mut i: usize = 0;
    while i < p.len()
        invariant
            lo <= hi <= cs@.len(),
            p@.len() <= hi - lo,
            i <= p@.len(),
            forall|j: int| 0 <= j < i ==> cs@[lo + j] == p@[j],
        decreases p@.len() - i,
    {
        if cs[lo + i] != p[i] {
            assert(cs@.subrange(lo as int, hi as int).subrange(0, p@.len() as int)[i as int] != p@[i as int]);
            return false;
        }
        i = i + 1;
    }
    assert(cs@.subrange(lo as int, hi as int).subrange(0, p@.len() as int) =~= p@);
    true
}

/// The start of `strip_prefixes(cs[lo..hi], p)` within `cs`.
pub fn strip_prefixes_at(cs: &Vec<char>, lo: usize, hi: usize, p: &Vec<char>) -> (r: usize)
    requires
        lo <= hi <= cs@.len(),
        p@.len() > 0,
    ensures
        lo <= r <= hi,
        cs@.subrange(r as int, hi as int) == strip_prefixes(cs@.subrange(lo as int, hi as int), p@),
{
    let mut a = lo;
    while starts_with_at(cs, a, hi, p)
        invariant
            lo <= a <= hi <= cs@.len(),
            p@.len() > 0,
            strip_prefixes(cs@.subrange(a as int, hi as int), p@) == strip_prefixes(
                cs@.subrange(lo as int, hi as int),
                p@,
            ),
        decreases hi - a,
    {
        assert(cs@.subrange(a as int, hi as int).subrange(p@.len() as int, (hi - a) as int) =~= cs@.subrange(
            a + p@.len(),
            hi as int,
        ));
        a = a + p.len();
    }
    a
}

/// The bounds of `trim(cs[lo..hi])` within `cs`.
pub fn trim_at(cs: &Vec<char>, lo: usize, hi: usize) -> (r: (usize, usize))
    requires
        lo <= hi <= cs@.len(),
    ensures
        lo <= r.0 <= r.1 <= hi,
        cs@.subrange(r.0 as int, r.1 as int) == trim(cs@.subrange(lo as int, hi as int)),
{
    let mut a = lo;
    while a < hi && char_is_whitespace(cs[a])
        invariant
            lo <= a <= hi <= cs@.len(),
            trim_start(cs@.subrange(a as int, hi as int)) == trim_start(cs@.subrange(lo as int, hi as int)),
        decreases hi - a,
    {
        assert(cs@.subrange(a as int, hi as int).drop_first() =~= cs@.subrange(a + 1, hi as int));
        a = a + 1;
    }
    assert(trim_start(cs@.subrange(a as int, hi as int)) == cs@.subrange(a as int, hi as int));
    let mut b = hi;
    while b > a && char_is_whitespace(cs[b - 1])
        invariant
            lo <= a <= b <= hi <= cs@.len(),
            trim_end(cs@.subrange(a as int, b as int)) == trim(cs@.subrange(lo as int, hi as int)),
        decreases b - a,
    {
        assert(cs@.subrange(a as int, b as int).drop_last() =~= cs@.subrange(a as int, b - 1));
        b = b - 1;
    }
    (a, b)
}

/// The bounds within `cs` of the pieces of `split_commas(cs[lo..hi])`.
pub fn split_commas_at(cs: &Vec<char>, lo: usize, hi: usize) -> (r: Vec<(usize, usize)>)
    requires
        lo <= hi <= cs@.len(),
    ensures
        r@.len() == split_commas(cs@.subrange(lo as int, hi as int)).len(),
        forall|k: int|
            0 <= k < r@.len() ==> {
                &&& lo <= (#[trigger] r@[k]).0 <= r@[k].1 <= hi
                &&& cs@.subrange(r@[k].0 as int, r@[k].1 as int) == split_commas(
                    cs@.subrange(lo as int, hi as int),
                )[k]
            },
{
    let mut pieces: Vec<(usize, usize)> = Vec::new();
    let mut start = lo;
    let mut i = lo;
    while i < hi
        invariant
            lo <= start <= i <= hi <= cs@.len(),
            split_commas(cs@.subrange(lo as int, i as int)).len() == pieces@.len() + 1,
            cs@.subrange(start as int, i as int) == split_commas(cs@.subrange(lo as int, i as int)).last(),
            forall|k: int|
                0 <= k < pieces@.len() ==> {
                    &&& lo <= (#[trigger] pieces@[k]).0 <= pieces@[k].1 <= i
                    &&& cs@.subrange(pieces@[k].0 as int, pieces@[k].1 as int) == split_commas(
                        cs@.subrange(lo as int, i as int),
                    )[k]
                },
        decreases hi - i,
    {
        let ghost prev = split_commas(cs@.subrange(lo as int, i as int));
        assert(cs@.subrange(lo as int, i + 1).drop_last() =~= cs@.subrange(lo as int, i as int));
        if cs[i] == ',' {
            pieces.push((start, i));
            start = i + 1;
            assert(cs@.subrange(start as int, i + 1) =~= Seq::<char>::empty());
        } else {
            assert(cs@.subrange(start as int, i + 1) =~= cs@.subrange(start as int, i as int).push(cs@[i as int]));
        }
        i = i + 1;
    }
    pieces.push((start, hi));
    pieces
}

/// The unsigned number that `cs[lo..hi]` spells, if it is at most `max`.
pub fn parse_unsigned_at(cs: &Vec<char>, lo: usize, hi: usize, max: u64) -> (r: Option<u64>)
    requires
        lo <= hi <= cs@.len(),
    ensures
        match parse_unsigned(cs@.subrange(lo as int, hi as int), max as nat) {
            Some(v) => r == Some(v as u64),
            None => r is None,
        },
{
    let ghost s = cs@.subrange(lo as int, hi as int);
    let mut a = lo;
    if a < hi && cs[a] == '+' {
        a = a + 1;
    }
    let ghost digits = cs@.subrange(a as int, hi as int);
    assert(digits == unsigned_digits(s));
    if a == hi {
        return None;
    }
    let mut value: u128 = 0;
    let mut too_big = false;
    let mut i = a;
    while i < hi
        invariant
            lo <= a < hi <= cs@.len(),
            a <= i <= hi,
            digits == cs@.subrange(a as int, hi as int),
            s == cs@.subrange(lo as int, hi as int),
            digits == unsigned_digits(s),
            forall|j: int| a <= j < i ==> is_digit(#[trigger] cs@[j]),
            !too_big ==> value == digits_value(cs@.subrange(a as int, i as int)) && value <= max,
            too_big ==> digits_value(cs@.subrange(a as int, i as int)) > max,
        decreases hi - i,
    {
        let c = cs[i];
        if !('0' <= c && c <= '9') {
            assert(digits[i - a] == cs@[i as int]);
            assert(!is_digit(digits[i - a]));
            return None;
        }
        let d = (c as u32 - '0' as u32) as u128;
        assert(cs@.subrange(a as int, i + 1).drop_last() =~= cs@.subrange(a as int, i as int));
        if !too_big {
            value = value * 10 + d;
            if value > max as u128 {
                too_big = true;
            }
        } else {
            assert(digits_value(cs@.subrange(a as int, i + 1)) >= digits_value(cs@.subrange(a as int, i as int)));
        }
        i = i + 1;
    }
    assert(cs@.subrange(a as int, hi as int) =~= digits);
    assert forall|j: int| 0 <= j < digits.len() implies is_digit(#[trigger] digits[j]) by {
        assert(digits[j] == cs@[a + j]);
    }
    if too_big {
        None
    } else {
        Some(value as u64)
    }
}


/// The port number that `text` spells, as `str::parse::<u16>` reads it.
pub fn parse_port(text: &str) -> (r: Option<u16>)
    ensures
        match parse_unsigned(text@, u16::MAX as nat) {
            Some(v) => r == Some(v as u16),
            None => r is None,
        },
{
    let cs = chars_of(text);
    let n = cs.len();
    assert(cs@.subrange(0, n as int) =~= text@);
    match parse_unsigned_at(&cs, 0, n, u16::MAX as u64) {
        Some(v) => Some(v as u16),
        None => None,
    }
}

} // verus!
