//! Character-level helpers: Unicode white space, trimming, searching.
use vstd::prelude::*;
use vstd::string::{StrSliceExecFns, StringExecFns};

use crate::key::{char_code, chars_of, compare_str, KeyComparison};

verus! {

/// Unicode White_Space, the set that `char::is_whitespace`, `str::trim` and
/// `str::split_whitespace` use.
pub open spec fn is_white_space(c: char) -> bool {
    let x = c as int;
    ||| 0x09 <= x <= 0x0D
    ||| x == 0x20
    ||| x == 0x85
    ||| x == 0xA0
    ||| x == 0x1680
    ||| 0x2000 <= x <= 0x200A
    ||| x == 0x2028
    ||| x == 0x2029
    ||| x == 0x202F
    ||| x == 0x205F
    ||| x == 0x3000
}

/// Whether a character is white space.
pub fn white_space(c: char) -> (r: bool)
    ensures
        r == is_white_space(c),
{
    let x = char_code(c);
    (0x09 <= x && x <= 0x0D) || x == 0x20 || x == 0x85 || x == 0xA0 || x == 0x1680 || (0x2000 <= x
        && x <= 0x200A) || x == 0x2028 || x == 0x2029 || x == 0x202F || x == 0x205F || x == 0x3000
}

/// Characters that are white space.
pub open spec fn white_space_pred() -> spec_fn(char) -> bool {
    |c: char| is_white_space(c)
}

/// The space character.
pub open spec fn space_pred() -> spec_fn(char) -> bool {
    |c: char| c == ' '
}

/// Index of the first character satisfying `p`, or the length if none does.
pub open spec fn first_index(s: Seq<char>, p: spec_fn(char) -> bool) -> int
    decreases s.len(),
{
    if s.len() == 0 {
        0
    } else if p(s[0]) {
        0
    } else {
        1 + first_index(s.drop_first(), p)
    }
}

/// `s` without its leading white space.
pub open spec fn trim_start(s: Seq<char>) -> Seq<char>
    decreases s.len(),
{
    if s.len() > 0 && is_white_space(s[0]) {
        trim_start(s.drop_first())
    } else {
        s
    }
}

/// `s` without its trailing white space.
pub open spec fn trim_end(s: Seq<char>) -> Seq<char>
    decreases s.len(),
{
    if s.len() > 0 && is_white_space(s.last()) {
        trim_end(s.drop_last())
    } else {
        s
    }
}

/// `s` without leading and trailing white space.
pub open spec fn trim(s: Seq<char>) -> Seq<char> {
    trim_end(trim_start(s))
}

/// The first white-space-separated word of `s` and what follows it, or
/// `None` if `s` is all white space.
pub open spec fn first_token(s: Seq<char>) -> Option<(Seq<char>, Seq<char>)> {
    let t = trim_start(s);
    if t.len() == 0 {
        None
    } else {
        let e = first_index(t, white_space_pred());
        Some((t.take(e), t.skip(e)))
    }
}

/// `r` is the first index at or after `from` where `p` holds, or the length.
pub proof fn lemma_first_index(s: Seq<char>, p: spec_fn(char) -> bool, r: int)
    requires
        0 <= r <= s.len(),
        forall|j: int| 0 <= j < r ==> !p(#[trigger] s[j]),
        r < s.len() ==> p(s[r]),
    ensures
        first_index(s, p) == r,
    decreases s.len(),
{
    if s.len() > 0 && r > 0 {
        assert forall|j: int| 0 <= j < r - 1 implies !p(#[trigger] s.drop_first()[j]) by {
            assert(s.drop_first()[j] == s[j + 1]);
        }
        lemma_first_index(s.drop_first(), p, r - 1);
    }
}

/// Nothing before the first index satisfies `p`; the character there does.
pub proof fn lemma_first_index_bounds(s: Seq<char>, p: spec_fn(char) -> bool)
    ensures
        0 <= first_index(s, p) <= s.len(),
        forall|j: int| 0 <= j < first_index(s, p) ==> !p(#[trigger] s[j]),
        first_index(s, p) < s.len() ==> p(s[first_index(s, p)]),
    decreases s.len(),
{
    if s.len() > 0 && !p(s[0]) {
        lemma_first_index_bounds(s.drop_first(), p);
        assert forall|j: int| 0 <= j < first_index(s, p) implies !p(#[trigger] s[j]) by {
            if j > 0 {
                assert(s[j] == s.drop_first()[j - 1]);
            }
        }
    }
}

/// A trimmed sequence neither starts nor ends with white space.
pub proof fn lemma_trim_ends(s: Seq<char>)
    ensures
        trim(s).len() > 0 ==> !is_white_space(trim(s).last()),
        trim(s).len() > 0 ==> !is_white_space(trim(s)[0]),
{
    lemma_trim_start_first(s);
    lemma_trim_end_last(trim_start(s));
}

/// Every character of `trim(s)` is a character of `s`.
pub proof fn lemma_trim_within(s: Seq<char>)
    ensures
        forall|i: int| 0 <= i < trim(s).len() ==> s.contains(#[trigger] trim(s)[i]),
{
    let m = lemma_trim_start_skip(s);
    let m2 = lemma_trim_end_take(trim_start(s));
    assert forall|i: int| 0 <= i < trim(s).len() implies s.contains(#[trigger] trim(s)[i]) by {
        assert(trim(s)[i] == trim_start(s)[i]);
        assert(trim_start(s)[i] == s[m + i]);
    }
}

proof fn lemma_trim_start_skip(s: Seq<char>) -> (m: int)
    ensures
        0 <= m <= s.len(),
        trim_start(s) == s.skip(m),
    decreases s.len(),
{
    if s.len() > 0 && is_white_space(s[0]) {
        let m1 = lemma_trim_start_skip(s.drop_first());
        assert(s.drop_first().skip(m1) =~= s.skip(m1 + 1));
        m1 + 1
    } else {
        assert(s.skip(0) =~= s);
        0
    }
}

proof fn lemma_trim_end_take(s: Seq<char>) -> (m: int)
    ensures
        0 <= m <= s.len(),
        trim_end(s) == s.take(m),
    decreases s.len(),
{
    if s.len() > 0 && is_white_space(s.last()) {
        let m1 = lemma_trim_end_take(s.drop_last());
        assert(s.drop_last().take(m1) =~= s.take(m1));
        m1
    } else {
        assert(s.take(s.len() as int) =~= s);
        s.len() as int
    }
}

proof fn lemma_trim_start_first(s: Seq<char>)
    ensures
        trim_start(s).len() > 0 ==> !is_white_space(trim_start(s)[0]),
    decreases s.len(),
{
    if s.len() > 0 && is_white_space(s[0]) {
        lemma_trim_start_first(s.drop_first());
    }
}

proof fn lemma_trim_end_last(s: Seq<char>)
    ensures
        trim_end(s).len() > 0 ==> !is_white_space(trim_end(s).last()),
        trim_end(s).len() > 0 && s.len() > 0 && !is_white_space(s[0]) ==> trim_end(s)[0] == s[0],
        trim_end(s).len() <= s.len(),
    decreases s.len(),
{
    if s.len() > 0 && is_white_space(s.last()) {
        lemma_trim_end_last(s.drop_last());
    }
}

/// Index of the first space in `cs[from..to]`, or `to`.
pub fn find_space(cs: &Vec<char>, from: usize, to: usize) -> (r: usize)
    requires
        from <= to <= cs@.len(),
    ensures
        from <= r <= to,
        r - from == first_index(cs@.subrange(from as int, to as int), space_pred()),
{
    let mut i = from;
    while i < to && cs[i] != ' '
        invariant
            from <= i <= to <= cs@.len(),
            forall|j: int| from <= j < i ==> cs@[j] != ' ',
        decreases to - i,
    {
        i = i + 1;
    }
    proof {
        let s = cs@.subrange(from as int, to as int);
        assert forall|j: int| 0 <= j < i - from implies !space_pred()(#[trigger] s[j]) by {
            assert(s[j] == cs@[from + j]);
        }
        lemma_first_index(s, space_pred(), i - from);
    }
    i
}

/// Index of the first white space in `cs[from..to]`, or `to`.
pub fn find_white_space(cs: &Vec<char>, from: usize, to: usize) -> (r: usize)
    requires
        from <= to <= cs@.len(),
    ensures
        from <= r <= to,
        r - from == first_index(cs@.subrange(from as int, to as int), white_space_pred()),
{
    let mut i = from;
    while i < to && !white_space(cs[i])
        invariant
            from <= i <= to <= cs@.len(),
            forall|j: int| from <= j < i ==> !is_white_space(cs@[j]),
        decreases to - i,
    {
        i = i + 1;
    }
    proof {
        let s = cs@.subrange(from as int, to as int);
        assert forall|j: int| 0 <= j < i - from implies !white_space_pred()(#[trigger] s[j]) by {
            assert(s[j] == cs@[from + j]);
        }
        lemma_first_index(s, white_space_pred(), i - from);
    }
    i
}

/// Skips white space in `cs[from..to]`: the result is where `trim_start`
/// of that slice begins.
pub fn skip_white_space(cs: &Vec<char>, from: usize, to: usize) -> (r: usize)
    requires
        from <= to <= cs@.len(),
    ensures
        from <= r <= to,
        trim_start(cs@.subrange(from as int, to as int)) == cs@.subrange(r as int, to as int),
{
    let mut i = from;
    while i < to && white_space(cs[i])
        invariant
            from <= i <= to <= cs@.len(),
            trim_start(cs@.subrange(from as int, to as int)) == trim_start(
                cs@.subrange(i as int, to as int),
            ),
        decreases to - i,
    {
        assert(cs@.subrange(i as int, to as int).drop_first() =~= cs@.subrange(
            i + 1,
            to as int,
        ));
        i = i + 1;
    }
    i
}

/// Bounds of the trimmed slice `cs[from..to]`.
pub fn trim_bounds(cs: &Vec<char>, from: usize, to: usize) -> (r: (usize, usize))
    requires
        from <= to <= cs@.len(),
    ensures
        from <= r.0 <= r.1 <= to,
        trim(cs@.subrange(from as int, to as int)) == cs@.subrange(r.0 as int, r.1 as int),
{
    let a = skip_white_space(cs, from, to);
    let mut b = to;
    while b > a && white_space(cs[b - 1])
        invariant
            a <= b <= to <= cs@.len(),
            trim_end(cs@.subrange(a as int, to as int)) == trim_end(
                cs@.subrange(a as int, b as int),
            ),
        decreases b,
    {
        assert(cs@.subrange(a as int, b as int).drop_last() =~= cs@.subrange(
            a as int,
            b - 1,
        ));
        b = b - 1;
    }
    (a, b)
}

/// Whether two strings are equal.
pub fn same_str(a: &str, b: &str) -> (r: bool)
    ensures
        r == (a@ == b@),
{
    match compare_str(a, b) {
        KeyComparison::Equal => true,
        _ => false,
    }
}

/// The characters `s[from..to]` as a new string.
pub fn substring(s: &str, from: usize, to: usize) -> (r: String)
    requires
        from <= to <= s@.len(),
    ensures
        r@ == s@.subrange(from as int, to as int),
{
    String::from_str(s.substring_char(from, to))
}


/// The character is ASCII.
pub open spec fn is_ascii_char(c: char) -> bool {
    (c as int) < 128
}

/// Every character of `s` is ASCII.
pub open spec fn all_ascii(s: Seq<char>) -> bool {
    forall|i: int| 0 <= i < s.len() ==> is_ascii_char(#[trigger] s[i])
}

/// A lowercase ASCII letter, `a` to `z`.
pub open spec fn is_ascii_lower(c: char) -> bool {
    97 <= (c as int) <= 122
}

/// An uppercase ASCII letter, `A` to `Z`.
pub open spec fn is_ascii_upper(c: char) -> bool {
    65 <= (c as int) <= 90
}

/// The uppercase of an ASCII letter `a` to `z`; any other character as is.
pub open spec fn upper_char(c: char) -> char {
    if is_ascii_lower(c) {
        ((c as int) - 32) as char
    } else {
        c
    }
}

/// `s` with each ASCII letter `a` to `z` made uppercase.
pub open spec fn ascii_upper(s: Seq<char>) -> Seq<char> {
    s.map_values(|c: char| upper_char(c))
}

/// A word that differs from an all-uppercase word `c` only in the case of
/// some of its letters is ASCII and uppercases to `c`: matching a command
/// word by its uppercase ignores case.
pub proof fn lemma_case_variant(w: Seq<char>, c: Seq<char>)
    requires
        w.len() == c.len(),
        forall|i: int| 0 <= i < c.len() ==> is_ascii_upper(#[trigger] c[i]),
        forall|i: int|
            0 <= i < c.len() ==> w[i] == c[i] || (w[i] as int) == (#[trigger] c[i] as int) + 32,
    ensures
        all_ascii(w),
        ascii_upper(w) == c,
{
    assert forall|i: int| 0 <= i < w.len() implies is_ascii_char(#[trigger] w[i]) by {
        assert(is_ascii_upper(c[i]));
    }
    assert forall|i: int| 0 <= i < w.len() implies #[trigger] ascii_upper(w)[i] == c[i] by {
        assert(is_ascii_upper(c[i]));
        if w[i] != c[i] {
            assert(((w[i] as int) - 32) as char == c[i]);
        }
    }
    assert(ascii_upper(w) =~= c);
}

/// Whether every character is ASCII.
pub fn chars_all_ascii(cs: &Vec<char>) -> (r: bool)
    ensures
        r == all_ascii(cs@),
{
    let mut i: usize = 0;
    while i < cs.len()
        invariant
            i <= cs.len(),
            forall|j: int| 0 <= j < i ==> is_ascii_char(#[trigger] cs@[j]),
        decreases cs.len() - i,
    {
        if char_code(cs[i]) >= 128 {
            return false;
        }
        i = i + 1;
    }
    true
}

/// `s` with each ASCII letter `a` to `z` made uppercase, others kept.
pub fn ascii_uppercase(s: &str) -> (r: String)
    ensures
        r@ == ascii_upper(s@),
{
    let cs = chars_of(s);
    let letters = "ABCDEFGHIJKLMNOPQRSTUVWXYZ";
    proof {
        reveal_strlit("ABCDEFGHIJKLMNOPQRSTUVWXYZ");
        assert forall|j: int| 0 <= j < 26 implies (#[trigger] letters@[j] as int) == 65 + j by {
            assert(letters@ =~= seq![
                'A', 'B', 'C', 'D', 'E', 'F', 'G', 'H', 'I', 'J', 'K', 'L', 'M', 'N', 'O',
                'P', 'Q', 'R', 'S', 'T', 'U', 'V', 'W', 'X', 'Y', 'Z'
            ]);
        }
    }
    let mut r = String::new();
    let mut i: usize = 0;
    while i < cs.len()
        invariant
            i <= cs.len(),
            cs@ == s@,
            letters@.len() == 26,
            forall|j: int| 0 <= j < 26 ==> (#[trigger] letters@[j] as int) == 65 + j,
            r@ == ascii_upper(s@).take(i as int),
        decreases cs.len() - i,
    {
        let code = char_code(cs[i]);
        if 97 <= code && code <= 122 {
            let j = (code - 97) as usize;
            let piece = letters.substring_char(j, j + 1);
            proof {
                assert(piece@ =~= seq![upper_char(cs@[i as int])]);
            }
            r.append(piece);
        } else {
            let piece = s.substring_char(i, i + 1);
            proof {
                assert(piece@ =~= seq![upper_char(cs@[i as int])]);
            }
            r.append(piece);
        }
        proof {
            assert(ascii_upper(s@).take(i + 1) =~= ascii_upper(s@).take(i as int) + seq![
                upper_char(cs@[i as int]),
            ]);
        }
        i = i + 1;
    }
    proof {
        assert(ascii_upper(s@).take(i as int) =~= ascii_upper(s@));
    }
    r
}

} // verus!
