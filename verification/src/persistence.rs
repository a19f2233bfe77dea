//! The dump format: one `SET <key> <value>` line per pair.
use vstd::prelude::*;
use vstd::string::StringExecFns;

use crate::key::chars_of;
use crate::text::{
    find_space, first_index, is_white_space, lemma_first_index, lemma_first_index_bounds, same_str, space_pred, substring,
    trim, trim_bounds, trim_end, trim_start,
};

verus! {

/// `SET <key> <value>`: the line that restores a pair.
pub open spec fn dump_line(k: Seq<char>, v: Seq<char>) -> Seq<char> {
    "SET "@ + k + " "@ + v
}

/// The dump of a sequence of pairs: one line per pair, each ended by a newline.
pub open spec fn dump_text(pairs: Seq<(Seq<char>, Seq<char>)>) -> Seq<char>
    decreases pairs.len(),
{
    if pairs.len() == 0 {
        Seq::empty()
    } else {
        dump_text(pairs.drop_last()) + dump_line(pairs.last().0, pairs.last().1) + "\n"@
    }
}

/// The lines of the dump of `pairs`.
pub open spec fn dump_lines(pairs: Seq<(Seq<char>, Seq<char>)>) -> Seq<Seq<char>> {
    pairs.map_values(|p: (Seq<char>, Seq<char>)| dump_line(p.0, p.1))
}

/// Pairs of strings, seen as pairs of character sequences.
pub open spec fn pair_texts(pairs: Seq<(String, String)>) -> Seq<(Seq<char>, Seq<char>)> {
    pairs.map_values(|p: (String, String)| (p.0@, p.1@))
}

/// Strings, seen as character sequences.
pub open spec fn line_texts(lines: Seq<String>) -> Seq<Seq<char>> {
    lines.map_values(|l: String| l@)
}

/// The decimal digit `d` (below ten).
pub open spec fn digit(d: nat) -> char {
    (48 + d) as char
}

/// The decimal notation of `n`.
pub open spec fn decimal(n: nat) -> Seq<char>
    decreases n,
{
    if n < 10 {
        seq![digit(n)]
    } else {
        decimal(n / 10) + seq![digit(n % 10)]
    }
}

/// What a line of a dump holds: `Some(None)` for a blank line,
/// `Some(Some((key, value)))` for `SET <key> <value>` (the value may hold
/// spaces), `None` for anything else. The line is trimmed first.
pub open spec fn dump_line_entry(line: Seq<char>) -> Option<Option<(Seq<char>, Seq<char>)>> {
    let t = trim(line);
    if t.len() == 0 {
        Some(None)
    } else {
        let p1 = first_index(t, space_pred());
        let rest = t.skip(p1 + 1);
        let p2 = first_index(rest, space_pred());
        if p1 == t.len() || p2 == rest.len() || t.take(p1) != "SET"@ {
            None
        } else {
            Some(Some((rest.take(p2), rest.skip(p2 + 1))))
        }
    }
}

/// The message for a malformed line (numbered from one) of the file at `path`.
pub open spec fn malformed_message(path: Seq<char>, line_number: nat) -> Seq<char> {
    "ERR: malformed line "@ + decimal(line_number) + " in "@ + path
}

/// The pairs a dump's lines hold, or the message for its first malformed line.
pub open spec fn parse_dump(path: Seq<char>, lines: Seq<Seq<char>>) -> Result<
    Seq<(Seq<char>, Seq<char>)>,
    Seq<char>,
>
    decreases lines.len(),
{
    if lines.len() == 0 {
        Ok(Seq::empty())
    } else {
        match parse_dump(path, lines.drop_last()) {
            Err(e) => Err(e),
            Ok(ps) => match dump_line_entry(lines.last()) {
                None => Err(malformed_message(path, lines.len())),
                Some(None) => Ok(ps),
                Some(Some(p)) => Ok(ps.push(p)),
            },
        }
    }
}

/// A pair that the dump gives back unchanged: neither part holds a newline,
/// its key holds no space, and its value is not empty and does not end in
/// white space.
pub open spec fn survives_dump(k: Seq<char>, v: Seq<char>) -> bool {
    &&& !k.contains('\n')
    &&& !v.contains('\n')
    &&& !k.contains(' ')
    &&& v.len() > 0
    &&& !is_white_space(v.last())
}

/// The newline character.
pub open spec fn newline_pred() -> spec_fn(char) -> bool {
    |c: char| c == '\n'
}

/// The lines of a text, as reading it line by line gives them: the pieces
/// between newlines, without the newlines; a last piece not ended by a
/// newline counts when it is not empty.
pub open spec fn text_lines(t: Seq<char>) -> Seq<Seq<char>>
    decreases t.len(),
{
    if t.len() == 0 {
        Seq::empty()
    } else {
        let i = first_index(t, newline_pred());
        proof {
            lemma_first_index_bounds(t, newline_pred());
        }
        if i >= t.len() {
            seq![t]
        } else {
            seq![t.take(i)] + text_lines(t.skip(i + 1))
        }
    }
}

/// Appending a line without newline, then a newline, to a text that is empty
/// or ends in a newline, appends that line to the text's lines.
proof fn lemma_text_lines_push(a: Seq<char>, line: Seq<char>)
    requires
        a.len() == 0 || a.last() == '\n',
        !line.contains('\n'),
    ensures
        text_lines(a + line + seq!['\n']) == text_lines(a).push(line),
    decreases a.len(),
{
    let t = a + line + seq!['\n'];
    let p = newline_pred();
    lemma_first_index_bounds(a, p);
    if a.len() == 0 {
        assert(t =~= line + seq!['\n']);
        assert forall|j: int| 0 <= j < line.len() implies !p(#[trigger] t[j]) by {
            assert(t[j] == line[j]);
            if line[j] == '\n' {
                assert(line.contains('\n'));
            }
        }
        lemma_first_index(t, p, line.len() as int);
        assert(t.take(line.len() as int) =~= line);
        assert(t.skip(line.len() as int + 1) =~= Seq::<char>::empty());
        assert(text_lines(t.skip(line.len() as int + 1)) =~= Seq::<Seq<char>>::empty());
        assert(text_lines(t) =~= seq![line]);
        assert(text_lines(a) =~= Seq::<Seq<char>>::empty());
    } else {
        let i = first_index(a, p);
        if i >= a.len() {
            assert(p(a[a.len() - 1]));
        }
        assert(i < a.len());
        assert forall|j: int| 0 <= j < i implies !p(#[trigger] t[j]) by {
            assert(t[j] == a[j]);
        }
        assert(t[i] == a[i]);
        lemma_first_index(t, p, i);
        let rest = a.skip(i + 1);
        assert(t.take(i) =~= a.take(i));
        assert(t.skip(i + 1) =~= rest + line + seq!['\n']);
        if rest.len() > 0 {
            assert(rest.last() == a.last());
        }
        lemma_text_lines_push(rest, line);
        assert(text_lines(t) =~= text_lines(a).push(line));
    }
}

/// The dump text of pairs without newlines splits into their dump lines.
proof fn lemma_text_lines_dump(pairs: Seq<(Seq<char>, Seq<char>)>)
    requires
        forall|i: int| 0 <= i < pairs.len() ==> survives_dump(#[trigger] pairs[i].0, pairs[i].1),
    ensures
        text_lines(dump_text(pairs)) == dump_lines(pairs),
        dump_text(pairs).len() == 0 || dump_text(pairs).last() == '\n',
    decreases pairs.len(),
{
    reveal_strlit("\n");
    reveal_strlit("SET ");
    reveal_strlit(" ");
    if pairs.len() == 0 {
        assert(text_lines(dump_text(pairs)) =~= dump_lines(pairs));
    } else {
        let init = pairs.drop_last();
        let (k, v) = pairs.last();
        assert(survives_dump(pairs[pairs.len() - 1].0, pairs[pairs.len() - 1].1));
        assert forall|i: int| 0 <= i < init.len() implies survives_dump(
            #[trigger] init[i].0,
            init[i].1,
        ) by {
            assert(init[i] == pairs[i]);
        }
        lemma_text_lines_dump(init);
        let line = dump_line(k, v);
        assert(!line.contains('\n')) by {
            assert(line =~= seq!['S', 'E', 'T', ' '] + k + seq![' '] + v);
            if line.contains('\n') {
                let j = choose|j: int| 0 <= j < line.len() && line[j] == '\n';
                if 4 <= j < 4 + k.len() {
                    assert(k[j - 4] == '\n');
                } else if 5 + k.len() <= j {
                    assert(v[j - 5 - k.len()] == '\n');
                }
            }
        }
        assert("\n"@ =~= seq!['\n']);
        lemma_text_lines_push(dump_text(init), line);
        assert(dump_lines(pairs) =~= dump_lines(init).push(line));
    }
}

/// The text written for pairs that each survive the dump reads back, line
/// by line, as those pairs in the same order.
pub proof fn lemma_dump_text_roundtrip(path: Seq<char>, pairs: Seq<(Seq<char>, Seq<char>)>)
    requires
        forall|i: int| 0 <= i < pairs.len() ==> survives_dump(#[trigger] pairs[i].0, pairs[i].1),
    ensures
        parse_dump(path, text_lines(dump_text(pairs))) == Ok::<
            Seq<(Seq<char>, Seq<char>)>,
            Seq<char>,
        >(pairs),
{
    lemma_text_lines_dump(pairs);
    lemma_dump_roundtrip(path, pairs);
}

/// The line written for a pair that survives the dump reads back as that pair.
pub proof fn lemma_dump_line_entry(k: Seq<char>, v: Seq<char>)
    requires
        survives_dump(k, v),
    ensures
        dump_line_entry(dump_line(k, v)) == Some(Some((k, v))),
{
    reveal_strlit("SET ");
    reveal_strlit(" ");
    reveal_strlit("SET");
    let line = dump_line(k, v);
    assert(line =~= seq!['S', 'E', 'T', ' '] + k + seq![' '] + v);
    assert(line[0] == 'S');
    assert(line.last() == v.last());
    assert(trim_start(line) == line);
    assert(trim_end(line) == line);
    assert(trim(line) == line);
    lemma_first_index(line, space_pred(), 3);
    let rest = line.skip(4);
    assert(rest =~= k + seq![' '] + v);
    assert forall|j: int| 0 <= j < k.len() implies !space_pred()(#[trigger] rest[j]) by {
        assert(rest[j] == k[j]);
    }
    lemma_first_index(rest, space_pred(), k.len() as int);
    assert(line.take(3) =~= "SET"@);
    assert(rest.take(k.len() as int) =~= k);
    assert(rest.skip(k.len() as int + 1) =~= v);
}

/// The dump gives back every sequence of pairs that each survive it.
pub proof fn lemma_dump_roundtrip(path: Seq<char>, pairs: Seq<(Seq<char>, Seq<char>)>)
    requires
        forall|i: int| 0 <= i < pairs.len() ==> survives_dump(#[trigger] pairs[i].0, pairs[i].1),
    ensures
        parse_dump(path, dump_lines(pairs)) == Ok::<Seq<(Seq<char>, Seq<char>)>, Seq<char>>(pairs),
    decreases pairs.len(),
{
    if pairs.len() == 0 {
        assert(dump_lines(pairs) =~= Seq::<Seq<char>>::empty());
        assert(pairs =~= Seq::<(Seq<char>, Seq<char>)>::empty());
    } else {
        let init = pairs.drop_last();
        assert(dump_lines(pairs).drop_last() =~= dump_lines(init));
        assert forall|i: int| 0 <= i < init.len() implies survives_dump(
            #[trigger] init[i].0,
            init[i].1,
        ) by {
            assert(init[i] == pairs[i]);
        }
        lemma_dump_roundtrip(path, init);
        let last = pairs.last();
        assert(survives_dump(pairs[pairs.len() - 1].0, pairs[pairs.len() - 1].1));
        lemma_dump_line_entry(last.0, last.1);
        let lines = dump_lines(pairs);
        assert(lines.last() == dump_line(last.0, last.1));
        assert(init.push(last) =~= pairs);
        assert(parse_dump(path, lines.drop_last()) == Ok::<Seq<(Seq<char>, Seq<char>)>, Seq<char>>(
            init,
        ));
        assert(parse_dump(path, lines) == Ok::<Seq<(Seq<char>, Seq<char>)>, Seq<char>>(
            init.push(last),
        ));
    }
}

/// Once a prefix of the lines holds a malformed line, so do all the lines.
proof fn lemma_parse_dump_error_stays(path: Seq<char>, lines: Seq<Seq<char>>, i: int)
    requires
        0 <= i <= lines.len(),
        parse_dump(path, lines.take(i)) is Err,
    ensures
        parse_dump(path, lines) == parse_dump(path, lines.take(i)),
    decreases lines.len() - i,
{
    if i < lines.len() {
        let next = lines.take(i + 1);
        assert(next.drop_last() =~= lines.take(i));
        assert(next.take(i) =~= lines.take(i));
        lemma_parse_dump_error_stays(path, lines, i + 1);
    } else {
        assert(lines.take(i) =~= lines);
    }
}

/// How a single dump line reads: a blank line is skipped; a line with no
/// space, or one not starting with `SET ` once trimmed, is malformed.
pub proof fn lemma_dump_line_rejected(line: Seq<char>)
    ensures
        trim(line).len() == 0 ==> dump_line_entry(line) == Some::<Option<(Seq<char>, Seq<char>)>>(
            None,
        ),
        trim(line).len() > 0 && !trim(line).contains(' ') ==> dump_line_entry(line) is None,
        trim(line).len() > 0 && (trim(line).len() < 4 || trim(line).take(4) != "SET "@)
            ==> dump_line_entry(line) is None,
{
    reveal_strlit("SET");
    reveal_strlit("SET ");
    let t = trim(line);
    let p1 = first_index(t, space_pred());
    lemma_first_index_bounds(t, space_pred());
    if t.len() > 0 && p1 < t.len() {
        assert(t.contains(t[p1]));
        if t.take(p1) == "SET"@ {
            assert(t.take(p1).len() == p1);
            assert("SET"@.len() == 3);
            assert(p1 == 3);
            assert(t[3] == ' ');
            assert(t.take(4) =~= t.take(3).push(' '));
            assert(t.take(4) =~= "SET "@);
        }
    }
}

/// The lines before `n` read, so every lines prefix up to `n` reads.
proof fn lemma_parse_dump_prefix_ok(path: Seq<char>, lines: Seq<Seq<char>>, n: int, i: int)
    requires
        0 <= i <= n <= lines.len(),
        forall|j: int| 0 <= j < n ==> #[trigger] dump_line_entry(lines[j]) is Some,
    ensures
        parse_dump(path, lines.take(i)) is Ok,
    decreases i,
{
    if i > 0 {
        lemma_parse_dump_prefix_ok(path, lines, n, i - 1);
        let p = lines.take(i);
        assert(p.drop_last() =~= lines.take(i - 1));
        assert(p.last() == lines[i - 1]);
        assert(dump_line_entry(lines[i - 1]) is Some);
    }
}

/// The first malformed line decides the outcome: reading fails with the
/// message that names that line's number (counted from one), whatever
/// follows it.
pub proof fn lemma_parse_dump_first_malformed(path: Seq<char>, lines: Seq<Seq<char>>, n: int)
    requires
        0 <= n < lines.len(),
        forall|j: int| 0 <= j < n ==> #[trigger] dump_line_entry(lines[j]) is Some,
        dump_line_entry(lines[n]) is None,
    ensures
        parse_dump(path, lines) == Err::<Seq<(Seq<char>, Seq<char>)>, Seq<char>>(
            malformed_message(path, (n + 1) as nat),
        ),
{
    lemma_parse_dump_prefix_ok(path, lines, n, n);
    let p = lines.take(n + 1);
    assert(p.drop_last() =~= lines.take(n));
    assert(p.last() == lines[n]);
    assert(parse_dump(path, p) == Err::<Seq<(Seq<char>, Seq<char>)>, Seq<char>>(
        malformed_message(path, (n + 1) as nat),
    ));
    lemma_parse_dump_error_stays(path, lines, n + 1);
}

/// The one-character string of a decimal digit.
fn digit_str(d: usize) -> (r: &'static str)
    requires
        d < 10,
    ensures
        r@ == seq![digit(d as nat)],
{
    match d {
        0 => {
            proof {
                reveal_strlit("0");
            }
            "0"
        },
        1 => {
            proof {
                reveal_strlit("1");
            }
            "1"
        },
        2 => {
            proof {
                reveal_strlit("2");
            }
            "2"
        },
        3 => {
            proof {
                reveal_strlit("3");
            }
            "3"
        },
        4 => {
            proof {
                reveal_strlit("4");
            }
            "4"
        },
        5 => {
            proof {
                reveal_strlit("5");
            }
            "5"
        },
        6 => {
            proof {
                reveal_strlit("6");
            }
            "6"
        },
        7 => {
            proof {
                reveal_strlit("7");
            }
            "7"
        },
        8 => {
            proof {
                reveal_strlit("8");
            }
            "8"
        },
        _ => {
            proof {
                reveal_strlit("9");
            }
            "9"
        },
    }
}

/// The decimal notation of `n`.
pub fn decimal_string(n: usize) -> (r: String)
    ensures
        r@ == decimal(n as nat),
    decreases n,
{
    if n < 10 {
        String::from_str(digit_str(n))
    } else {
        let mut s = decimal_string(n / 10);
        s.append(digit_str(n % 10));
        s
    }
}

/// The answer to SAVE once the directory of the dump at `path` exists:
/// what writing `count` pairs there gave, where `written` is the write's
/// outcome (its error as text).
pub open spec fn save_text(written: Result<(), String>, count: nat, path: Seq<char>) -> Seq<char> {
    match written {
        Ok(_) => "Persisted "@ + decimal(count) + " keys to "@ + path,
        Err(e) => "ERR: could not write to "@ + path + ": "@ + e@,
    }
}

/// Builds the answer to SAVE from the outcome of writing `count` pairs to
/// the dump at `path`.
pub fn save_outcome(written: Result<(), String>, count: usize, path: &str) -> (r: String)
    ensures
        r@ == save_text(written, count as nat, path@),
{
    match written {
        Ok(()) => {
            let mut r = String::from_str("Persisted ");
            let n = decimal_string(count);
            r.append(n.as_str());
            r.append(" keys to ");
            r.append(path);
            proof {
                assert(r@ =~= save_text(written, count as nat, path@));
            }
            r
        },
        Err(e) => {
            let mut r = String::from_str("ERR: could not write to ");
            r.append(path);
            r.append(": ");
            r.append(e.as_str());
            proof {
                assert(r@ =~= save_text(written, count as nat, path@));
            }
            r
        },
    }
}

/// The dump of `pairs`: one `SET <key> <value>` line per pair.
pub fn encode_dump(pairs: &Vec<(String, String)>) -> (r: String)
    ensures
        r@ == dump_text(pair_texts(pairs@)),
{
    let ghost ps = pair_texts(pairs@);
    let mut r = String::new();
    let mut i: usize = 0;
    while i < pairs.len()
        invariant
            i <= pairs.len(),
            ps == pair_texts(pairs@),
            ps.len() == pairs.len(),
            r@ == dump_text(ps.take(i as int)),
        decreases pairs.len() - i,
    {
        r.append("SET ");
        r.append(pairs[i].0.as_str());
        r.append(" ");
        r.append(pairs[i].1.as_str());
        r.append("\n");
        proof {
            assert(ps.take(i + 1).drop_last() =~= ps.take(i as int));
            assert(ps[i as int] == (pairs@[i as int].0@, pairs@[i as int].1@));
            assert(r@ =~= dump_text(ps.take(i + 1)));
        }
        i = i + 1;
    }
    proof {
        assert(ps.take(i as int) =~= ps);
    }
    r
}

/// Reads one line of a dump, as `dump_line_entry` says.
#[verifier::spinoff_prover]
pub fn read_dump_line(line: &str) -> (r: Option<Option<(String, String)>>)
    ensures
        dump_line_entry(line@) == match r {
            None => None,
            Some(None) => Some(None),
            Some(Some((k, v))) => Some(Some((k@, v@))),
        },
{
    let cs = chars_of(line);
    let n = cs.len();
    proof {
        assert(cs@.subrange(0, n as int) =~= line@);
    }
    let (a, b) = trim_bounds(&cs, 0, n);
    if a == b {
        return Some(None);
    }
    let ghost t = cs@.subrange(a as int, b as int);
    let p1 = find_space(&cs, a, b);
    if p1 == b {
        return None;
    }
    let p2 = find_space(&cs, p1 + 1, b);
    proof {
        assert(t.skip(p1 - a + 1) =~= cs@.subrange(p1 + 1, b as int));
    }
    if p2 == b {
        return None;
    }
    let head = substring(line, a, p1);
    proof {
        assert(head@ =~= t.take(p1 - a));
    }
    if !same_str(head.as_str(), "SET") {
        return None;
    }
    let key = substring(line, p1 + 1, p2);
    let value = substring(line, p2 + 1, b);
    proof {
        let rest = t.skip(p1 - a + 1);
        assert(key@ =~= rest.take(p2 - p1 - 1));
        assert(value@ =~= rest.skip(p2 - p1 - 1 + 1));
    }
    Some(Some((key, value)))
}

/// The message for a malformed line of the file at `path`.
fn malformed(path: &str, line_number: usize) -> (r: String)
    ensures
        r@ == malformed_message(path@, line_number as nat),
{
    let mut r = String::from_str("ERR: malformed line ");
    let d = decimal_string(line_number);
    r.append(d.as_str());
    r.append(" in ");
    r.append(path);
    proof {
        assert(r@ =~= malformed_message(path@, line_number as nat));
    }
    r
}

#[verifier::spinoff_prover]
/// Reads the pairs from the lines of a dump of the file at `path`; blank
/// lines are skipped, and the first malformed line gives an error.
pub fn read_dump(path: &str, lines: &Vec<String>) -> (r: Result<Vec<(String, String)>, String>)
    ensures
        match r {
            Ok(ps) => parse_dump(path@, line_texts(lines@)) == Ok::<
                Seq<(Seq<char>, Seq<char>)>,
                Seq<char>,
            >(pair_texts(ps@)),
            Err(e) => parse_dump(path@, line_texts(lines@)) == Err::<
                Seq<(Seq<char>, Seq<char>)>,
                Seq<char>,
            >(e@),
        },
{
    let ghost ls = line_texts(lines@);
    let mut out: Vec<(String, String)> = Vec::new();
    let mut i: usize = 0;
    proof {
        assert(ls.take(0) =~= Seq::<Seq<char>>::empty());
        assert(pair_texts(out@) =~= Seq::<(Seq<char>, Seq<char>)>::empty());
    }
    while i < lines.len()
        invariant
            i <= lines.len(),
            ls == line_texts(lines@),
            ls.len() == lines.len(),
            parse_dump(path@, ls.take(i as int)) == Ok::<Seq<(Seq<char>, Seq<char>)>, Seq<char>>(
                pair_texts(out@),
            ),
        decreases lines.len() - i,
    {
        proof {
            assert(ls.take(i + 1).drop_last() =~= ls.take(i as int));
            assert(ls.take(i + 1).last() == lines@[i as int]@);
        }
        match read_dump_line(lines[i].as_str()) {
            None => {
                let e = malformed(path, i + 1);
                proof {
                    lemma_parse_dump_error_stays(path@, ls, i + 1);
                }
                return Err(e);
            },
            Some(None) => {},
            Some(Some(p)) => {
                let ghost before = out@;
                out.push(p);
                proof {
                    assert(pair_texts(out@) =~= pair_texts(before).push((p.0@, p.1@)));
                }
            },
        }
        i = i + 1;
    }
    proof {
        assert(ls.take(i as int) =~= ls);
    }
    Ok(out)
}

} // verus!
