//! Character-level text utilities shared by the option-language parsers:
//! whitespace trimming, ASCII lowercasing and decimal-number reading, each
//! specified over sequences of characters.

use vstd::prelude::*;

verus! {

/// Whitespace characters tolerated around the option grammar's tokens.
pub open spec fn is_ws(c: char) -> bool {
    c == ' ' || c == '\t' || c == '\r' || c == '\n'
}

/// `s` with leading whitespace removed.
pub open spec fn trim_front_spec(s: Seq<char>) -> Seq<char>
    decreases s.len(),
{
    if s.len() > 0 && is_ws(s[0]) {
        trim_front_spec(s.drop_first())
    } else {
        s
    }
}

/// `s` with trailing whitespace removed.
pub open spec fn trim_back_spec(s: Seq<char>) -> Seq<char>
    decreases s.len(),
{
    if s.len() > 0 && is_ws(s.last()) {
        trim_back_spec(s.drop_last())
    } else {
        s
    }
}

/// `s` with whitespace removed from both ends.
pub open spec fn trim_spec(s: Seq<char>) -> Seq<char> {
    trim_back_spec(trim_front_spec(s))
}

/// An upper-case ASCII letter mapped to lower case; anything else unchanged.
pub open spec fn lower_char(c: char) -> char {
    if 65 <= c as u32 && c as u32 <= 90 {
        (((c as u32) as u8) + 32) as char
    } else {
        c
    }
}

/// `s` mapped to lower case, ASCII letter by ASCII letter.
pub open spec fn lower_spec(s: Seq<char>) -> Seq<char> {
    s.map_values(|c: char| lower_char(c))
}

/// True if `c` is a decimal digit.
pub open spec fn is_digit(c: char) -> bool {
    48 <= c as u32 && c as u32 <= 57
}

/// True if `s` consists of decimal digits only.
pub open spec fn all_digits(s: Seq<char>) -> bool {
    forall|i: int| 0 <= i < s.len() ==> is_digit(#[trigger] s[i])
}

/// The value of a sequence of decimal digits, most significant first.
pub open spec fn digits_val(s: Seq<char>) -> int
    decreases s.len(),
{
    if s.len() == 0 {
        0
    } else {
        digits_val(s.drop_last()) * 10 + (s.last() as u32 - 48)
    }
}

/// The number a string of text denotes: defined when the text is one or more
/// decimal digits and nothing else, with no bound on its size.
pub open spec fn parse_num_spec(s: Seq<char>) -> Option<int> {
    if s.len() > 0 && all_digits(s) {
        Some(digits_val(s))
    } else {
        None
    }
}

/// The number a string of text denotes as a `usize`: defined when the text
/// is all digits and the value is representable.
pub open spec fn parse_usize_spec(s: Seq<char>) -> Option<usize> {
    match parse_num_spec(s) {
        Some(v) => if v <= usize::MAX {
            Some(v as usize)
        } else {
            None
        },
        None => None,
    }
}

pub proof fn lemma_parse_usize_num(s: Seq<char>)
    ensures
        match parse_usize_spec(s) {
            Some(p) => parse_num_spec(s) == Some(p as int),
            None => parse_num_spec(s) is None || parse_num_spec(s)->Some_0 > usize::MAX,
        },
{
    if s.len() > 0 && all_digits(s) {
        lemma_digits_val_bounds(s);
    }
}

/// The characters of `s`, in order.
pub fn str_chars(s: &str) -> (r: Vec<char>)
    ensures
        r@ == s@,
{
    let n = s.unicode_len();
    let mut v: Vec<char> = Vec::new();
    let mut i: usize = 0;
    while i < n
        invariant
            i <= n,
            n == s@.len(),
            v@ == s@.subrange(0, i as int),
        decreases n - i,
    {
        let c = s.get_char(i);
        v.push(c);
        proof {
            assert(v@ =~= s@.subrange(0, i + 1));
        }
        i += 1;
    }
    proof {
        assert(v@ =~= s@);
    }
    v
}

/// True if `c` is whitespace.
pub fn is_ws_exec(c: char) -> (r: bool)
    ensures
        r == is_ws(c),
{
    c == ' ' || c == '\t' || c == '\r' || c == '\n'
}

proof fn lemma_trim_front_index(s: Seq<char>, i: int)
    requires
        0 <= i <= s.len(),
        forall|k: int| 0 <= k < i ==> is_ws(s[k]),
        i < s.len() ==> !is_ws(s[i]),
    ensures
        trim_front_spec(s) == s.subrange(i, s.len() as int),
    decreases s.len(),
{
    if s.len() > 0 && is_ws(s[0]) {
        assert(i > 0 || !is_ws(s[i]));
        lemma_trim_front_index(s.drop_first(), i - 1);
        assert(s.drop_first().subrange(i - 1, s.drop_first().len() as int) =~= s.subrange(
            i,
            s.len() as int,
        ));
    } else {
        assert(i == 0);
        assert(s.subrange(0, s.len() as int) =~= s);
    }
}

proof fn lemma_trim_back_index(s: Seq<char>, j: int)
    requires
        0 <= j <= s.len(),
        forall|k: int| j <= k < s.len() ==> is_ws(s[k]),
        j > 0 ==> !is_ws(s[j - 1]),
    ensures
        trim_back_spec(s) == s.subrange(0, j),
    decreases s.len(),
{
    if s.len() > 0 && is_ws(s.last()) {
        assert(j < s.len());
        lemma_trim_back_index(s.drop_last(), j);
        assert(s.drop_last().subrange(0, j) =~= s.subrange(0, j));
    } else {
        assert(j == s.len());
        assert(s.subrange(0, s.len() as int) =~= s);
    }
}

/// The characters of `v` with whitespace removed from both ends.
pub fn trim_chars(v: &Vec<char>) -> (r: Vec<char>)
    ensures
        r@ == trim_spec(v@),
{
    let n = v.len();
    let mut start: usize = 0;
    while start < n && is_ws_exec(v[start])
        invariant
            start <= n,
            n == v@.len(),
            forall|k: int| 0 <= k < start ==> is_ws(v@[k]),
        decreases n - start,
    {
        start += 1;
    }
    proof {
        lemma_trim_front_index(v@, start as int);
    }
    let mut end: usize = n;
    while end > start && is_ws_exec(v[end - 1])
        invariant
            start <= end <= n,
            n == v@.len(),
            forall|k: int| end <= k < n ==> is_ws(v@[k]),
        decreases end,
    {
        end -= 1;
    }
    proof {
        let front = v@.subrange(start as int, n as int);
        lemma_trim_back_index(front, end - start);
        assert(front.subrange(0, end - start) =~= v@.subrange(start as int, end as int));
    }
    let mut r: Vec<char> = Vec::new();
    let mut i: usize = start;
    while i < end
        invariant
            start <= i <= end <= n,
            n == v@.len(),
            r@ == v@.subrange(start as int, i as int),
        decreases end - i,
    {
        r.push(v[i]);
        proof {
            assert(r@ =~= v@.subrange(start as int, i + 1));
        }
        i += 1;
    }
    r
}

/// The characters of `v` lowercased ASCII letter by ASCII letter.
pub fn lower_chars(v: &Vec<char>) -> (r: Vec<char>)
    ensures
        r@ == lower_spec(v@),
{
    let n = v.len();
    let mut r: Vec<char> = Vec::new();
    let mut i: usize = 0;
    while i < n
        invariant
            i <= n,
            n == v@.len(),
            r@.len() == i,
            forall|k: int| 0 <= k < i ==> r@[k] == lower_char(v@[k]),
        decreases n - i,
    {
        let c = v[i];
        let u = c as u32;
        if 65 <= u && u <= 90 {
            r.push(((u as u8) + 32) as char);
        } else {
            r.push(c);
        }
        i += 1;
    }
    proof {
        assert(r@ =~= lower_spec(v@));
    }
    r
}

proof fn lemma_digits_val_bounds(s: Seq<char>)
    requires
        all_digits(s),
    ensures
        0 <= digits_val(s),
        digits_val(s) < pow10(s.len() as nat),
    decreases s.len(),
{
    if s.len() > 0 {
        assert(all_digits(s.drop_last()));
        lemma_digits_val_bounds(s.drop_last());
    }
}

/// Ten to the power `e`.
pub open spec fn pow10(e: nat) -> int
    decreases e,
{
    if e == 0 {
        1
    } else {
        10 * pow10((e - 1) as nat)
    }
}

proof fn lemma_digits_val_lower(s: Seq<char>)
    requires
        all_digits(s),
        s.len() > 0,
        s[0] != '0',
    ensures
        digits_val(s) >= pow10((s.len() - 1) as nat),
    decreases s.len(),
{
    assert(is_digit(s[0]));
    if s.len() == 1 {
        assert(s.drop_last().len() == 0);
        assert(digits_val(s.drop_last()) == 0);
        assert(s.last() == s[0]);
        assert(s[0] as u32 != 48) by {
            if s[0] as u32 == 48 {
                vstd::utf8::char_u32_cast(s[0], 48);
                vstd::utf8::char_u32_cast('0', '0' as u32);
                assert(('0' as u32) == 48);
            }
        }
    } else {
        assert(s.drop_last()[0] == s[0]);
        lemma_digits_val_lower(s.drop_last());
        lemma_digits_val_bounds(s);
    }
}

proof fn lemma_digits_drop_leading_zero(s: Seq<char>)
    requires
        s.len() > 0,
        s[0] == '0',
    ensures
        digits_val(s) == digits_val(s.drop_first()),
    decreases s.len(),
{
    assert(('0' as u32) == 48);
    if s.len() == 1 {
        assert(s.drop_last().len() == 0);
        assert(digits_val(s.drop_last()) == 0);
        assert(s.last() == '0');
        assert(s.drop_first().len() == 0);
    } else {
        assert(s.drop_last()[0] == s[0]);
        lemma_digits_drop_leading_zero(s.drop_last());
        assert(s.drop_first().drop_last() =~= s.drop_last().drop_first());
        assert(s.drop_first().last() == s.last());
    }
}

proof fn lemma_digits_leading_zeros(s: Seq<char>, z: int)
    requires
        0 <= z <= s.len(),
        forall|k: int| 0 <= k < z ==> s[k] == '0',
    ensures
        digits_val(s) == digits_val(s.subrange(z, s.len() as int)),
    decreases z,
{
    if z == 0 {
        assert(s.subrange(0, s.len() as int) =~= s);
    } else {
        lemma_digits_drop_leading_zero(s);
        assert(forall|k: int|
            0 <= k < z - 1 ==> #[trigger] s.drop_first()[k] == s[k + 1] && s[k + 1] == '0');
        lemma_digits_leading_zeros(s.drop_first(), z - 1);
        assert(s.drop_first().subrange(z - 1, s.drop_first().len() as int) =~= s.subrange(
            z,
            s.len() as int,
        ));
    }
}

/// Reads the decimal number in `v[from..to]`, if that slice is one or more
/// digits denoting a value that fits in `usize`.
pub fn parse_usize_digits(v: &Vec<char>, from: usize, to: usize) -> (r: Option<usize>)
    requires
        from <= to <= v@.len(),
    ensures
        r == parse_usize_spec(v@.subrange(from as int, to as int)),
{
    let ghost s = v@.subrange(from as int, to as int);
    if from == to {
        return None;
    }
    // Reject any non-digit first.
    let mut i: usize = from;
    while i < to
        invariant
            from <= i <= to <= v@.len(),
            forall|k: int| from <= k < i ==> is_digit(v@[k]),
        decreases to - i,
    {
        let c = v[i];
        let u = c as u32;
        if !(48 <= u && u <= 57) {
            proof {
                assert(v@.subrange(from as int, to as int)[i - from] == v@[i as int]);
            }
            return None;
        }
        i += 1;
    }
    assert(all_digits(s));
    // Skip leading zeros; they do not change the value.
    let mut z: usize = from;
    while z < to && v[z] == '0'
        invariant
            from <= z <= to,
            to <= v@.len(),
            forall|k: int| from <= k < z ==> v@[k] == '0',
        decreases to - z,
    {
        z += 1;
    }
    let ghost tail = v@.subrange(z as int, to as int);
    proof {
        assert(forall|k: int| 0 <= k < z - from ==> s[k] == '0');
        lemma_digits_leading_zeros(s, z - from);
        assert(s.subrange(z - from, s.len() as int) =~= tail);
        assert(all_digits(tail));
    }
    if to - z > 20 {
        // More than twenty significant digits cannot fit in a `usize`.
        proof {
            lemma_digits_val_lower(tail);
            lemma_pow10_mono(20, (tail.len() - 1) as nat);
            lemma_pow10_20();
        }
        return None;
    }
    proof {
        lemma_pow10_mono((to - z) as nat, 20);
        lemma_pow10_20();
    }
    let mut acc: u128 = 0;
    let mut j: usize = z;
    while j < to
        invariant
            z <= j <= to <= v@.len(),
            to - z <= 20,
            all_digits(v@.subrange(z as int, to as int)),
            acc == digits_val(v@.subrange(z as int, j as int)),
            acc < pow10((j - z) as nat),
            pow10((to - z) as nat) <= pow10(20),
        decreases to - j,
    {
        let c = v[j];
        proof {
            assert(v@.subrange(z as int, to as int)[j - z] == v@[j as int]);
        }
        let d = (c as u32) - 48;
        proof {
            let pre = v@.subrange(z as int, j as int);
            let cur = v@.subrange(z as int, j + 1);
            assert(cur.drop_last() =~= pre);
            assert(is_digit(cur.last()));
            lemma_pow10_mono((j + 1 - z) as nat, (to - z) as nat);
            lemma_pow10_20();
            assert(acc * 10 + d <= (pow10((j - z) as nat) - 1) * 10 + 9);
        }
        acc = acc * 10 + (d as u128);
        j += 1;
    }
    proof {
        assert(v@.subrange(z as int, to as int) =~= tail);
        lemma_digits_val_bounds(s);
    }
    if acc > (usize::MAX as u128) {
        return None;
    }
    Some(acc as usize)
}

/// The index of the first occurrence of `sep` in `s`, or `s.len()` if none.
pub open spec fn find_char(s: Seq<char>, sep: char) -> int
    decreases s.len(),
{
    if s.len() == 0 {
        0
    } else if s[0] == sep {
        0
    } else {
        1 + find_char(s.drop_first(), sep)
    }
}

pub proof fn lemma_find_char(s: Seq<char>, sep: char)
    ensures
        0 <= find_char(s, sep) <= s.len(),
        forall|k: int| 0 <= k < find_char(s, sep) ==> s[k] != sep,
        find_char(s, sep) < s.len() ==> s[find_char(s, sep)] == sep,
    decreases s.len(),
{
    if s.len() > 0 && s[0] != sep {
        lemma_find_char(s.drop_first(), sep);
        assert forall|k: int| 0 <= k < find_char(s, sep) implies s[k] != sep by {
            if k >= 1 {
                assert(s.drop_first()[k - 1] == s[k]);
            }
        }
    }
}

/// `s` split at every occurrence of `sep`: one more part than separators,
/// with empty parts kept.
pub open spec fn split_spec(s: Seq<char>, sep: char) -> Seq<Seq<char>>
    decreases s.len(),
{
    let i = find_char(s, sep);
    if 0 <= i < s.len() {
        seq![s.subrange(0, i)] + split_spec(s.subrange(i + 1, s.len() as int), sep)
    } else {
        seq![s]
    }
}

/// The characters `v[from..to]`, copied out.
pub fn subvec_chars(v: &Vec<char>, from: usize, to: usize) -> (r: Vec<char>)
    requires
        from <= to <= v@.len(),
    ensures
        r@ == v@.subrange(from as int, to as int),
{
    let mut r: Vec<char> = Vec::new();
    let mut i: usize = from;
    while i < to
        invariant
            from <= i <= to <= v@.len(),
            r@ == v@.subrange(from as int, i as int),
        decreases to - i,
    {
        r.push(v[i]);
        proof {
            assert(r@ =~= v@.subrange(from as int, i + 1));
        }
        i += 1;
    }
    r
}

/// The index of the first occurrence of `sep` in `v`, or `v.len()` if none.
pub fn find_char_exec(v: &Vec<char>, sep: char) -> (r: usize)
    ensures
        r as int == find_char(v@, sep),
{
    let n = v.len();
    let mut i: usize = 0;
    while i < n && v[i] != sep
        invariant
            i <= n,
            n == v@.len(),
            forall|k: int| 0 <= k < i ==> v@[k] != sep,
        decreases n - i,
    {
        i += 1;
    }
    proof {
        lemma_find_char(v@, sep);
        if i < n {
            assert(find_char(v@, sep) == i as int);
        } else {
            assert(find_char(v@, sep) == v@.len());
        }
    }
    i
}

fn split_from(v: &Vec<char>, from: usize, sep: char) -> (r: Vec<Vec<char>>)
    requires
        from <= v@.len(),
    ensures
        r@.len() == split_spec(v@.skip(from as int), sep).len(),
        forall|k: int|
            0 <= k < r@.len() ==> r@[k]@ == #[trigger] split_spec(v@.skip(from as int), sep)[k],
    decreases v@.len() - from,
{
    let ghost s = v@.skip(from as int);
    let n = v.len();
    let mut i: usize = from;
    while i < n && v[i] != sep
        invariant
            from <= i <= n,
            n == v@.len(),
            forall|k: int| from <= k < i ==> v@[k] != sep,
        decreases n - i,
    {
        i += 1;
    }
    proof {
        lemma_find_char(s, sep);
        assert(forall|k: int| 0 <= k < s.len() ==> s[k] == #[trigger] v@[k + from]);
        if i < n {
            assert(s[i - from] == sep);
            assert(find_char(s, sep) == i - from);
        } else {
            assert(find_char(s, sep) == s.len());
        }
    }
    if i == n {
        let part = subvec_chars(v, from, n);
        let mut r: Vec<Vec<char>> = Vec::new();
        r.push(part);
        proof {
            assert(part@ =~= s);
            assert(split_spec(s, sep) =~= seq![s]);
        }
        r
    } else {
        let part = subvec_chars(v, from, i);
        let mut rest = split_from(v, i + 1, sep);
        let mut r: Vec<Vec<char>> = Vec::new();
        r.push(part);
        r.append(&mut rest);
        proof {
            let fc = i - from;
            assert(s.subrange(0, fc) =~= v@.subrange(from as int, i as int));
            assert(s.subrange(fc + 1, s.len() as int) =~= v@.skip(i + 1));
            assert(split_spec(s, sep) == seq![s.subrange(0, fc)] + split_spec(v@.skip(i + 1), sep));
        }
        r
    }
}

/// `v` split at every occurrence of `sep`, with empty parts kept.
pub fn split_chars(v: &Vec<char>, sep: char) -> (r: Vec<Vec<char>>)
    ensures
        r@.len() == split_spec(v@, sep).len(),
        forall|k: int| 0 <= k < r@.len() ==> r@[k]@ == #[trigger] split_spec(v@, sep)[k],
{
    let r = split_from(v, 0, sep);
    proof {
        assert(v@.skip(0) =~= v@);
    }
    r
}

/// True if the characters `v[from..to]` spell exactly the string `s`.
pub fn chars_eq_str(v: &Vec<char>, from: usize, to: usize, s: &str) -> (r: bool)
    requires
        from <= to <= v@.len(),
    ensures
        r == (v@.subrange(from as int, to as int) == s@),
{
    let n = s.unicode_len();
    if to - from != n {
        proof {
            assert(v@.subrange(from as int, to as int).len() != s@.len());
        }
        return false;
    }
    let mut i: usize = 0;
    while i < n
        invariant
            i <= n,
            from <= to <= v@.len(),
            to - from == n,
            n == s@.len(),
            forall|k: int| 0 <= k < i ==> v@[from + k] == s@[k],
        decreases n - i,
    {
        let c = s.get_char(i);
        if v[from + i] != c {
            proof {
                assert(v@.subrange(from as int, to as int)[i as int] != s@[i as int]);
            }
            return false;
        }
        i += 1;
    }
    proof {
        assert(v@.subrange(from as int, to as int) =~= s@);
    }
    true
}

proof fn lemma_pow10_20()
    ensures
        pow10(20) == 100000000000000000000,
{
    reveal_with_fuel(pow10, 21);
}

proof fn lemma_pow10_mono(a: nat, b: nat)
    requires
        a <= b,
    ensures
        pow10(a) <= pow10(b),
        pow10(a) >= 1,
    decreases b,
{
    if a < b {
        lemma_pow10_mono(a, (b - 1) as nat);
    } else if b > 0 {
        lemma_pow10_mono((a - 1) as nat, (b - 1) as nat);
    }
}

} // verus!
