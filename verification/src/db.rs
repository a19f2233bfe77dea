//! The database: textual answers to commands over a red-black tree of strings.
use vstd::prelude::*;
use vstd::string::StringExecFns;

use crate::key::{chars_less, compare_str, KeyComparison, OrderedKey};
use crate::tree::iterator::{in_range, pair_views, within_bounds};
use crate::tree::node::sorted_keys;
use crate::tree::rbtree::{
    key_differs, lemma_filter_none, lemma_filter_sorted, lemma_reports_value_of,
    lemma_value_of_upsert, lemma_value_of_without_key, lemma_without_key_upsert, upsert, value_of,
    without_key, RBTree,
};

verus! {

/// `k -> "v"`: how a pair is shown.
pub open spec fn pair_line(k: Seq<char>, v: Seq<char>) -> Seq<char> {
    k + " -> \""@ + v + "\""@
}

/// The lines joined with a newline between each two.
pub open spec fn join_lines(lines: Seq<Seq<char>>) -> Seq<char>
    decreases lines.len(),
{
    if lines.len() == 0 {
        Seq::empty()
    } else if lines.len() == 1 {
        lines[0]
    } else {
        join_lines(lines.drop_last()) + "\n"@ + lines.last()
    }
}

/// One shown pair per entry.
pub open spec fn pair_lines(s: Seq<(Seq<char>, String)>) -> Seq<Seq<char>> {
    s.map_values(|e: (Seq<char>, String)| pair_line(e.0, e.1@))
}

/// One key per entry.
pub open spec fn key_lines(s: Seq<(Seq<char>, String)>) -> Seq<Seq<char>> {
    s.map_values(|e: (Seq<char>, String)| e.0)
}

/// `v` in double quotes.
pub open spec fn quoted(v: Seq<char>) -> Seq<char> {
    "\""@ + v + "\""@
}

/// The answer to GET: the value in quotes, or "(nil)".
pub open spec fn get_text(s: Seq<(Seq<char>, String)>, k: Seq<char>) -> Seq<char> {
    match value_of::<String, String>(s, k) {
        Some(v) => quoted(v@),
        None => "(nil)"@,
    }
}

/// The answer to DELETE: "OK" when the key was there, else "(nil)".
pub open spec fn delete_text(s: Seq<(Seq<char>, String)>, k: Seq<char>) -> Seq<char> {
    if value_of::<String, String>(s, k) is Some {
        "OK"@
    } else {
        "(nil)"@
    }
}

/// The answer to RANGE: the pairs with key in [low, high], one per line, or
/// "(empty)" when there is none (as when `low > high`).
pub open spec fn range_text(s: Seq<(Seq<char>, String)>, low: Seq<char>, high: Seq<char>) -> Seq<
    char,
> {
    if chars_less(high, low) {
        "(empty)"@
    } else {
        let sel = in_range::<String, String>(s, Some(low), Some(high));
        if sel.len() == 0 {
            "(empty)"@
        } else {
            join_lines(pair_lines(sel))
        }
    }
}

/// The answer to KEYS: the keys one per line, or "(empty)".
pub open spec fn keys_text(s: Seq<(Seq<char>, String)>) -> Seq<char> {
    if s.len() == 0 {
        "(empty)"@
    } else {
        join_lines(key_lines(s))
    }
}

/// The answer to MIN: the first pair, or "(nil)".
pub open spec fn min_text(s: Seq<(Seq<char>, String)>) -> Seq<char> {
    if s.len() == 0 {
        "(nil)"@
    } else {
        pair_line(s[0].0, s[0].1@)
    }
}

/// The answer to MAX: the last pair, or "(nil)".
pub open spec fn max_text(s: Seq<(Seq<char>, String)>) -> Seq<char> {
    if s.len() == 0 {
        "(nil)"@
    } else {
        pair_line(s.last().0, s.last().1@)
    }
}

/// `k` lies in `[low, high]`.
pub open spec fn key_within(k: Seq<char>, low: Seq<char>, high: Seq<char>) -> bool {
    !chars_less(k, low) && !chars_less(high, k)
}

/// The KEYS answer, pair by pair: "(empty)" for no pair, the key alone for
/// one pair, and one more pair adds a newline and its key at the end.
pub proof fn lemma_keys_text(s: Seq<(Seq<char>, String)>, e: (Seq<char>, String))
    ensures
        keys_text(Seq::empty()) == "(empty)"@,
        keys_text(seq![e]) == e.0,
        s.len() > 0 ==> keys_text(s.push(e)) == keys_text(s) + "\n"@ + e.0,
{
    assert(key_lines(seq![e]) =~= seq![e.0]);
    if s.len() > 0 {
        assert(key_lines(s.push(e)).drop_last() =~= key_lines(s));
        assert(key_lines(s.push(e)).last() == e.0);
    }
}

/// The answer to DELETE is "OK" exactly when some stored pair has the key,
/// and "(nil)" when none has it; deleting the same key again answers "(nil)".
pub proof fn lemma_delete_text(s: Seq<(Seq<char>, String)>, k: Seq<char>)
    ensures
        (forall|i: int| 0 <= i < s.len() ==> #[trigger] s[i].0 != k) ==> delete_text(s, k)
            == "(nil)"@,
        (exists|i: int| 0 <= i < s.len() && #[trigger] s[i].0 == k) ==> delete_text(s, k)
            == "OK"@,
        delete_text(without_key::<String, String>(s, k), k) == "(nil)"@,
{
    let w = without_key::<String, String>(s, k);
    assert forall|j: int| 0 <= j < w.len() implies #[trigger] w[j].0 != k by {
        s.lemma_filter_pred(key_differs::<String, String>(k), j);
    }
}

proof fn lemma_join_lines_push(lines: Seq<Seq<char>>, x: Seq<char>)
    ensures
        join_lines(lines.push(x)) == if lines.len() == 0 {
            x
        } else {
            join_lines(lines) + "\n"@ + x
        },
{
    assert(lines.push(x).drop_last() =~= lines);
}

/// Shows a pair as `k -> "v"`.
fn render_pair(k: &String, v: &String) -> (r: String)
    ensures
        r@ == pair_line(k@, v@),
{
    let mut r = String::new();
    r.append(k.as_str());
    r.append(" -> \"");
    r.append(v.as_str());
    r.append("\"");
    proof {
        assert(r@ =~= pair_line(k@, v@));
    }
    r
}

/// Shows the pairs one per line.
fn render_pairs(pairs: &Vec<(&String, &String)>) -> (r: String)
    ensures
        r@ == join_lines(pair_lines(pair_views(pairs@))),
{
    let ghost lines = pair_lines(pair_views(pairs@));
    let mut r = String::new();
    let mut i: usize = 0;
    while i < pairs.len()
        invariant
            i <= pairs.len(),
            lines == pair_lines(pair_views(pairs@)),
            lines.len() == pairs.len(),
            r@ == join_lines(lines.take(i as int)),
        decreases pairs.len() - i,
    {
        if i > 0 {
            r.append("\n");
        }
        let (k, v) = pairs[i];
        let line = render_pair(k, v);
        r.append(line.as_str());
        proof {
            assert(lines[i as int] == pair_line(k@, v@));
            assert(lines.take(i + 1) =~= lines.take(i as int).push(lines[i as int]));
            lemma_join_lines_push(lines.take(i as int), lines[i as int]);
        }
        i = i + 1;
    }
    proof {
        assert(lines.take(i as int) =~= lines);
    }
    r
}

/// Shows the keys one per line.
fn render_keys(pairs: &Vec<(&String, &String)>) -> (r: String)
    ensures
        r@ == join_lines(key_lines(pair_views(pairs@))),
{
    let ghost lines = key_lines(pair_views(pairs@));
    let mut r = String::new();
    let mut i: usize = 0;
    while i < pairs.len()
        invariant
            i <= pairs.len(),
            lines == key_lines(pair_views(pairs@)),
            lines.len() == pairs.len(),
            r@ == join_lines(lines.take(i as int)),
        decreases pairs.len() - i,
    {
        if i > 0 {
            r.append("\n");
        }
        let (k, _v) = pairs[i];
        r.append(k.as_str());
        proof {
            assert(lines[i as int] == k@);
            assert(lines.take(i + 1) =~= lines.take(i as int).push(lines[i as int]));
            lemma_join_lines_push(lines.take(i as int), lines[i as int]);
        }
        i = i + 1;
    }
    proof {
        assert(lines.take(i as int) =~= lines);
    }
    r
}

/// Key-value database answering each command with the text to show.
pub struct Database {
    store: RBTree<String, String>,
}

impl View for Database {
    type V = Seq<(Seq<char>, String)>;

    /// The pairs in ascending key order.
    closed spec fn view(&self) -> Seq<(Seq<char>, String)> {
        self.store@
    }
}

impl Database {
    /// The underlying tree is well formed.
    pub closed spec fn wf(&self) -> bool {
        self.store.wf()
    }

    pub fn new() -> (db: Self)
        ensures
            db.wf(),
            db@ == Seq::<(Seq<char>, String)>::empty(),
    {
        Database { store: RBTree::new() }
    }

    /// A read gives back what a write wrote: after `SET k v`, `GET k`
    /// answers `v` in quotes, and every other key answers as before.
    pub proof fn lemma_get_after_set(&self, k: Seq<char>, v: String, other: Seq<char>)
        requires
            self.wf(),
        ensures
            get_text(upsert::<String, String>(self@, k, v), k) == quoted(v@),
            other != k ==> get_text(upsert::<String, String>(self@, k, v), other) == get_text(
                self@,
                other,
            ),
    {
        self.store.lemma_wf_sorted_red_black();
        lemma_value_of_upsert::<String, String>(self@, k, v, other);
    }

    /// After `DELETE k`, `GET k` answers "(nil)", and every other key
    /// answers as before.
    pub proof fn lemma_get_after_delete(&self, k: Seq<char>, other: Seq<char>)
        requires
            self.wf(),
        ensures
            get_text(without_key::<String, String>(self@, k), k) == "(nil)"@,
            other != k ==> get_text(without_key::<String, String>(self@, k), other) == get_text(
                self@,
                other,
            ),
    {
        self.store.lemma_wf_sorted_red_black();
        lemma_value_of_without_key::<String, String>(self@, k, other);
    }

    /// The pairs are held in strictly ascending key order, so each key
    /// occurs once: KEYS, RANGE and `iter` list keys in ascending order,
    /// MIN answers the least key and MAX the greatest.
    pub proof fn lemma_sorted(&self)
        requires
            self.wf(),
        ensures
            sorted_keys::<String, String>(self@),
            forall|i: int|
                0 < i < self@.len() ==> chars_less(self@[0].0, #[trigger] self@[i].0),
            forall|i: int|
                0 <= i < self@.len() - 1 ==> chars_less(#[trigger] self@[i].0, self@.last().0),
    {
        self.store.lemma_wf_sorted_red_black();
        let s = self@;
        assert forall|i: int| 0 < i < s.len() implies chars_less(s[0].0, #[trigger] s[i].0) by {
            assert(String::key_less(s[0].0, s[i].0));
        }
        assert forall|i: int| 0 <= i < s.len() - 1 implies chars_less(
            #[trigger] s[i].0,
            s.last().0,
        ) by {
            assert(String::key_less(s[i].0, s[s.len() - 1].0));
        }
    }

    /// The answer to RANGE: "(empty)" when `low` is above `high` or no stored
    /// key lies in `[low, high]`; otherwise one line per pair of the
    /// selection, which holds every stored pair with key in `[low, high]`,
    /// only such pairs, in strictly ascending key order.
    pub proof fn lemma_range_answer(&self, low: Seq<char>, high: Seq<char>)
        requires
            self.wf(),
        ensures
            chars_less(high, low) ==> range_text(self@, low, high) == "(empty)"@,
            (forall|i: int| 0 <= i < self@.len() ==> !key_within(#[trigger] self@[i].0, low, high))
                ==> range_text(self@, low, high) == "(empty)"@,
            !chars_less(high, low) && (exists|i: int|
                0 <= i < self@.len() && key_within(#[trigger] self@[i].0, low, high))
                ==> range_text(self@, low, high) == join_lines(
                pair_lines(in_range::<String, String>(self@, Some(low), Some(high))),
            ),
            forall|i: int|
                0 <= i < self@.len() && key_within(#[trigger] self@[i].0, low, high)
                    ==> in_range::<String, String>(self@, Some(low), Some(high)).contains(
                    self@[i],
                ),
            forall|j: int|
                0 <= j < in_range::<String, String>(self@, Some(low), Some(high)).len() ==> {
                    let e = #[trigger] in_range::<String, String>(self@, Some(low), Some(high))[j];
                    key_within(e.0, low, high) && self@.contains(e)
                },
            sorted_keys::<String, String>(in_range::<String, String>(self@, Some(low), Some(high))),
    {
        self.store.lemma_wf_sorted_red_black();
        let s = self@;
        let p = within_bounds::<String, String>(Some(low), Some(high));
        let sel = in_range::<String, String>(s, Some(low), Some(high));
        lemma_filter_sorted::<String, String>(s, p);
        assert forall|i: int| 0 <= i < s.len() && key_within(#[trigger] s[i].0, low, high) implies sel.contains(
            s[i],
        ) by {
            s.lemma_filter_contains(p, i);
        }
        assert forall|j: int| 0 <= j < sel.len() implies {
            let e = #[trigger] sel[j];
            key_within(e.0, low, high) && s.contains(e)
        } by {
            s.lemma_filter_pred(p, j);
        }
        if forall|i: int| 0 <= i < s.len() ==> !key_within(#[trigger] s[i].0, low, high) {
            assert forall|i: int| 0 <= i < s.len() implies !p(s[i]) by {
                assert(!key_within(s[i].0, low, high));
            }
            lemma_filter_none(s, p);
        }
        if exists|i: int| 0 <= i < s.len() && key_within(#[trigger] s[i].0, low, high) {
            let i = choose|i: int| 0 <= i < s.len() && key_within(#[trigger] s[i].0, low, high);
            s.lemma_filter_contains(p, i);
            assert(sel.len() > 0);
        }
    }

    /// The answer to GET is the stored value of the key in double quotes,
    /// or "(nil)" when no stored pair has the key.
    pub proof fn lemma_get_answer(&self, k: Seq<char>)
        requires
            self.wf(),
        ensures
            (forall|i: int| 0 <= i < self@.len() ==> #[trigger] self@[i].0 != k) ==> get_text(
                self@,
                k,
            ) == "(nil)"@,
            forall|i: int|
                0 <= i < self@.len() && #[trigger] self@[i].0 == k ==> get_text(self@, k) == quoted(
                    self@[i].1@,
                ),
    {
        self.store.lemma_wf_sorted_red_black();
        let s = self@;
        assert forall|i: int| 0 <= i < s.len() && #[trigger] s[i].0 == k implies get_text(s, k)
            == quoted(s[i].1@) by {
            assert(s[i] == (k, s[i].1));
            lemma_reports_value_of::<String, String>(s, k, Some(s[i].1));
        }
    }

    /// The answer to DELETE is "OK" exactly when the key is stored.
    pub proof fn lemma_delete_answer(&self, k: Seq<char>)
        ensures
            (forall|i: int| 0 <= i < self@.len() ==> #[trigger] self@[i].0 != k) ==> delete_text(
                self@,
                k,
            ) == "(nil)"@,
            (exists|i: int| 0 <= i < self@.len() && #[trigger] self@[i].0 == k) ==> delete_text(
                self@,
                k,
            ) == "OK"@,
    {
        lemma_delete_text(self@, k);
    }

    /// MIN and MAX answer "(nil)" on an empty database; otherwise MIN shows
    /// the stored pair whose key is below every other key, and MAX the one
    /// whose key is above every other key.
    pub proof fn lemma_min_max_answer(&self)
        requires
            self.wf(),
        ensures
            self@.len() == 0 ==> min_text(self@) == "(nil)"@ && max_text(self@) == "(nil)"@,
            self@.len() > 0 ==> exists|i: int|
                0 <= i < self@.len() && min_text(self@) == pair_line(self@[i].0, self@[i].1@)
                    && forall|j: int|
                    0 <= j < self@.len() && j != i ==> chars_less(self@[i].0, #[trigger] self@[j].0),
            self@.len() > 0 ==> exists|i: int|
                0 <= i < self@.len() && max_text(self@) == pair_line(self@[i].0, self@[i].1@)
                    && forall|j: int|
                    0 <= j < self@.len() && j != i ==> chars_less(#[trigger] self@[j].0, self@[i].0),
    {
        self.lemma_sorted();
        let s = self@;
        if s.len() > 0 {
            let last = s.len() - 1;
            assert forall|j: int| 0 <= j < s.len() && j != 0 implies chars_less(s[0].0, #[trigger] s[j].0) by {
                assert(String::key_less(s[0].0, s[j].0));
            }
            assert forall|j: int| 0 <= j < s.len() && j != last implies chars_less(#[trigger] s[j].0, s[last].0) by {
                assert(String::key_less(s[j].0, s[last].0));
            }
            assert(min_text(s) == pair_line(s[0].0, s[0].1@));
            assert(max_text(s) == pair_line(s[last].0, s[last].1@));
        }
    }

    /// Deleting a key that was just set, where it was absent before, answers
    /// "OK" and gives back the pairs held before the SET.
    pub proof fn lemma_delete_after_set(&self, k: Seq<char>, v: String)
        requires
            self.wf(),
            value_of::<String, String>(self@, k) is None,
        ensures
            delete_text(upsert::<String, String>(self@, k, v), k) == "OK"@,
            without_key::<String, String>(upsert::<String, String>(self@, k, v), k).len()
                == self@.len(),
            forall|i: int|
                0 <= i < self@.len() ==> #[trigger] without_key::<String, String>(
                    upsert::<String, String>(self@, k, v),
                    k,
                )[i] == self@[i],
    {
        self.store.lemma_wf_sorted_red_black();
        assert(delete_text(upsert::<String, String>(self@, k, v), k) == "OK"@) by {
            lemma_value_of_upsert::<String, String>(self@, k, v, k);
        }
        lemma_without_key_upsert::<String, String>(self@, k, v);
    }

    /// Number of pairs stored.
    pub fn len(&self) -> (r: usize)
        requires
            self.wf(),
        ensures
            r == self@.len(),
    {
        self.store.len()
    }

    /// Inserts or updates the pair. Returns "OK".
    pub fn set(&mut self, key: String, value: String) -> (r: String)
        requires
            old(self).wf(),
            old(self)@.len() < usize::MAX,
        ensures
            final(self).wf(),
            final(self)@ == upsert::<String, String>(old(self)@, key@, value),
            r@ == "OK"@,
    {
        self.store.insert(key, value);
        String::from_str("OK")
    }

    /// Returns the value for the key in double quotes, or "(nil)" if absent.
    pub fn get(&self, key: &str) -> (r: String)
        requires
            self.wf(),
        ensures
            r@ == get_text(self@, key@),
    {
        let k = key.to_owned();
        match self.store.get(&k) {
            Some(v) => {
                let mut r = String::from_str("\"");
                r.append(v.as_str());
                r.append("\"");
                proof {
                    assert(r@ =~= quoted(v@));
                }
                r
            },
            None => String::from_str("(nil)"),
        }
    }

    /// Removes the key and returns "OK", or "(nil)" if it did not exist.
    pub fn delete(&mut self, key: &str) -> (r: String)
        requires
            old(self).wf(),
        ensures
            final(self).wf(),
            final(self)@ == without_key::<String, String>(old(self)@, key@),
            r@ == delete_text(old(self)@, key@),
    {
        let k = key.to_owned();
        match self.store.delete(&k) {
            Some(_) => String::from_str("OK"),
            None => String::from_str("(nil)"),
        }
    }

    /// Returns all pairs with key in [low, high], one per line, ascending;
    /// "(empty)" when there is none, and when `low > high`.
    pub fn range(&self, low: &str, high: &str) -> (r: String)
        requires
            self.wf(),
        ensures
            r@ == range_text(self@, low@, high@),
    {
        if let KeyComparison::Greater = compare_str(low, high) {
            return String::from_str("(empty)");
        }
        let lo = low.to_owned();
        let hi = high.to_owned();
        let results = self.store.range(&lo, &hi);
        if results.len() == 0 {
            String::from_str("(empty)")
        } else {
            render_pairs(&results)
        }
    }

    /// Lists all keys in ascending order, one per line; "(empty)" if none.
    pub fn keys(&self) -> (r: String)
        requires
            self.wf(),
        ensures
            r@ == keys_text(self@),
    {
        if self.store.is_empty() {
            return String::from_str("(empty)");
        }
        let pairs = self.store.iter();
        render_keys(&pairs)
    }

    /// Returns the pair with the smallest key, or "(nil)" if empty.
    pub fn min(&self) -> (r: String)
        requires
            self.wf(),
        ensures
            r@ == min_text(self@),
    {
        match self.store.min() {
            Some((k, v)) => render_pair(k, v),
            None => String::from_str("(nil)"),
        }
    }

    /// Returns the pair with the largest key, or "(nil)" if empty.
    pub fn max(&self) -> (r: String)
        requires
            self.wf(),
        ensures
            r@ == max_text(self@),
    {
        match self.store.max() {
            Some((k, v)) => render_pair(k, v),
            None => String::from_str("(nil)"),
        }
    }

    /// All pairs in ascending key order.
    pub fn iter(&self) -> (r: Vec<(&String, &String)>)
        requires
            self.wf(),
        ensures
            pair_views(r@) == self@,
    {
        self.store.iter()
    }

    /// Saving is done by the program around the database.
    pub fn save(&self) -> (r: String)
        ensures
            r@ == "(not implemented)"@,
    {
        String::from_str("(not implemented)")
    }

    /// Loading is done by the program around the database.
    pub fn load(&mut self) -> (r: String)
        ensures
            r@ == "(not implemented)"@,
            final(self)@ == old(self)@,
            final(self).wf() == old(self).wf(),
    {
        String::from_str("(not implemented)")
    }
}

} // verus!
