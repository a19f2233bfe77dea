use vstd::prelude::*;

verus! {

/// Result of comparing two keys.
#[derive(Debug, Clone, Copy, PartialEq, Eq, Structural)]
pub enum KeyComparison {
    Less,
    Equal,
    Greater,
}

/// Keys of the tree: a strict total order on their views, and an executable
/// comparison that agrees with it.
pub trait OrderedKey: View + Sized {
    /// The strict order on key views.
    spec fn key_less(a: Self::V, b: Self::V) -> bool;

    /// `key_less` is irreflexive, transitive and total.
    proof fn lemma_key_order()
        ensures
            forall|a: Self::V| !#[trigger] Self::key_less(a, a),
            forall|a: Self::V, b: Self::V, c: Self::V|
                #[trigger] Self::key_less(a, b) && #[trigger] Self::key_less(b, c) ==> Self::key_less(
                    a,
                    c,
                ),
            forall|a: Self::V, b: Self::V|
                #![trigger Self::key_less(a, b)]
                a != b ==> Self::key_less(a, b) || Self::key_less(b, a),
    ;

    /// Three-way comparison of two keys.
    fn compare(&self, other: &Self) -> (r: KeyComparison)
        ensures
            (r is Less) == Self::key_less(self@, other@),
            (r is Equal) == (self@ == other@),
            (r is Greater) == Self::key_less(other@, self@),
    ;
}

impl OrderedKey for i32 {
    open spec fn key_less(a: i32, b: i32) -> bool {
        a < b
    }

    proof fn lemma_key_order() {
    }

    fn compare(&self, other: &i32) -> (r: KeyComparison) {
        if *self < *other {
            KeyComparison::Less
        } else if *self == *other {
            KeyComparison::Equal
        } else {
            KeyComparison::Greater
        }
    }
}

/// `i` witnesses that `a` comes strictly before `b` in lexicographic order:
/// they agree below `i`, and at `i` either `a` has ended while `b` goes on,
/// or `a` holds the smaller character.
pub open spec fn lex_witness(a: Seq<char>, b: Seq<char>, i: int) -> bool {
    &&& 0 <= i <= a.len()
    &&& i <= b.len()
    &&& forall|j: int| 0 <= j < i ==> a[j] == b[j]
    &&& (i == a.len() && i < b.len()) || (i < a.len() && i < b.len() && (a[i] as int) < (
    b[i] as int))
}

/// Lexicographic order on character sequences (the order of Rust's `str`).
pub open spec fn chars_less(a: Seq<char>, b: Seq<char>) -> bool {
    exists|i: int| #[trigger] lex_witness(a, b, i)
}

proof fn lemma_chars_less_irreflexive(a: Seq<char>)
    ensures
        !chars_less(a, a),
{
}

proof fn lemma_chars_less_transitive(a: Seq<char>, b: Seq<char>, c: Seq<char>)
    requires
        chars_less(a, b),
        chars_less(b, c),
    ensures
        chars_less(a, c),
{
    let i = choose|i: int| lex_witness(a, b, i);
    let j = choose|j: int| lex_witness(b, c, j);
    if i < j {
        assert(lex_witness(a, c, i));
    } else if j < i {
        assert(lex_witness(a, c, j));
    } else {
        assert(lex_witness(a, c, i));
    }
}

proof fn lemma_chars_less_total_from(a: Seq<char>, b: Seq<char>, i: int)
    requires
        a != b,
        0 <= i <= a.len(),
        i <= b.len(),
        forall|j: int| 0 <= j < i ==> a[j] == b[j],
    ensures
        chars_less(a, b) || chars_less(b, a),
    decreases a.len() - i,
{
    if i == a.len() || i == b.len() {
        if a.len() == b.len() {
            assert(a =~= b);
        } else if i == a.len() {
            assert(lex_witness(a, b, i));
        } else {
            assert(lex_witness(b, a, i));
        }
    } else if a[i] != b[i] {
        if (a[i] as int) < (b[i] as int) {
            assert(lex_witness(a, b, i));
        } else {
            assert(lex_witness(b, a, i));
        }
    } else {
        lemma_chars_less_total_from(a, b, i + 1);
    }
}

/// The code point of a character.
pub(crate) fn char_code(c: char) -> (r: u32)
    ensures
        r as int == c as int,
{
    c as u32
}

/// Three-way lexicographic comparison of two character sequences.
pub fn compare_chars(a: &Vec<char>, b: &Vec<char>) -> (r: KeyComparison)
    ensures
        (r is Less) == chars_less(a@, b@),
        (r is Equal) == (a@ == b@),
        (r is Greater) == chars_less(b@, a@),
{
    proof {
        lemma_chars_less_irreflexive(a@);
        lemma_chars_less_irreflexive(b@);
        if chars_less(a@, b@) && chars_less(b@, a@) {
            lemma_chars_less_transitive(a@, b@, a@);
        }
    }
    let mut i: usize = 0;
    while i < a.len() && i < b.len() && a[i] == b[i]
        invariant
            i <= a.len(),
            i <= b.len(),
            forall|j: int| 0 <= j < i ==> a@[j] == b@[j],
        decreases a.len() - i,
    {
        i = i + 1;
    }
    if i < a.len() && i < b.len() {
        let c1: char = a[i];
        let c2: char = b[i];
        let ca = char_code(c1);
        let cb = char_code(c2);
        if ca < cb {
            assert(lex_witness(a@, b@, i as int));
            KeyComparison::Less
        } else {
            assert(lex_witness(b@, a@, i as int));
            KeyComparison::Greater
        }
    } else if i == a.len() && i == b.len() {
        assert(a@ =~= b@);
        KeyComparison::Equal
    } else if i == a.len() {
        assert(lex_witness(a@, b@, i as int));
        KeyComparison::Less
    } else {
        assert(lex_witness(b@, a@, i as int));
        KeyComparison::Greater
    }
}

/// Collects the characters of a string slice.
pub fn chars_of(s: &str) -> (r: Vec<char>)
    ensures
        r@ == s@,
{
    let mut r: Vec<char> = Vec::new();
    for c in it: s.chars()
        invariant
            r@ == it.seq().take(it.index() as int),
    {
        r.push(c);
    }
    r
}

/// Three-way lexicographic comparison of two string slices.
pub fn compare_str(a: &str, b: &str) -> (r: KeyComparison)
    ensures
        (r is Less) == chars_less(a@, b@),
        (r is Equal) == (a@ == b@),
        (r is Greater) == chars_less(b@, a@),
{
    let ca = chars_of(a);
    let cb = chars_of(b);
    compare_chars(&ca, &cb)
}

impl OrderedKey for String {
    open spec fn key_less(a: Seq<char>, b: Seq<char>) -> bool {
        chars_less(a, b)
    }

    proof fn lemma_key_order() {
        assert forall|a: Seq<char>| !#[trigger] chars_less(a, a) by {
            lemma_chars_less_irreflexive(a);
        }
        assert forall|a: Seq<char>, b: Seq<char>, c: Seq<char>|
            #[trigger] chars_less(a, b) && #[trigger] chars_less(b, c) implies chars_less(a, c) by {
            lemma_chars_less_transitive(a, b, c);
        }
        assert forall|a: Seq<char>, b: Seq<char>| a != b implies #[trigger] chars_less(a, b)
            || chars_less(b, a) by {
            lemma_chars_less_total_from(a, b, 0);
        }
    }

    fn compare(&self, other: &String) -> (r: KeyComparison) {
        compare_str(self.as_str(), other.as_str())
    }
}

} // verus!
