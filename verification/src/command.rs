//! Parsing an input line into a command, and running a command on the
//! database.
use vstd::prelude::*;
use vstd::string::StringExecFns;

use crate::db::{
    lemma_delete_text, quoted, delete_text, get_text, keys_text, max_text, min_text, range_text, Database,
};
use crate::key::chars_of;
use crate::persistence::survives_dump;
use crate::text::{
    is_white_space, lemma_first_index, trim_end, trim_start, white_space_pred, all_ascii, ascii_upper, ascii_uppercase, chars_all_ascii,
    find_space, find_white_space, first_index, first_token, lemma_first_index_bounds,
    lemma_trim_ends, lemma_trim_within, same_str, skip_white_space, space_pred, substring, trim, trim_bounds,
};
use crate::tree::node::sorted_keys;
use crate::tree::rbtree::{key_differs, lemma_value_of_upsert, upsert, without_key};

verus! {

/// A command of the database's line protocol.
#[derive(Debug)]
pub enum Command {
    SetValue(String, String),
    Get(String),
    Delete(String),
    Range(String, String),
    Keys,
    Min,
    Max,
    Save,
    Load,
    Exit,
}

/// What `str::to_uppercase` returns for a string.
pub uninterp spec fn uppercase_of(s: Seq<char>) -> Seq<char>;

/// Calls `str::to_uppercase`, the Unicode uppercase mapping. Its result is
/// named `uppercase_of` of the argument. Beyond that only the ASCII case is
/// claimed, as std documents it beside `str::to_ascii_uppercase`: on an
/// all-ASCII string, `a` to `z` become `A` to `Z` and every other character
/// stays. The rest of the mapping is the Unicode standard's tables.
#[verifier::external_body]
fn to_uppercase(s: &str) -> (r: String)
    ensures
        r@ == uppercase_of(s@),
        all_ascii(s@) ==> r@ == ascii_upper(s@),
{
    s.to_uppercase()
}

/// The result is an error with message `m`.
pub open spec fn is_error(r: Result<Command, String>, m: Seq<char>) -> bool {
    r matches Err(e) && e@ == m
}

/// What parsing gives for the uppercased command word `word` followed by
/// the (trimmed) rest of the line.
pub open spec fn parse_outcome(word: Seq<char>, rest: Seq<char>, r: Result<Command, String>) -> bool {
    if word == "SET"@ {
        let i = first_index(rest, space_pred());
        let value = trim(rest.skip(i + 1));
        if i == rest.len() || value.len() == 0 {
            is_error(r, "usage: SET <key> <value>"@)
        } else {
            r matches Ok(Command::SetValue(k, v)) && k@ == rest.take(i) && v@ == value
        }
    } else if word == "GET"@ {
        if rest.len() == 0 {
            is_error(r, "usage: GET <key>"@)
        } else {
            r matches Ok(Command::Get(k)) && k@ == rest
        }
    } else if word == "DELETE"@ {
        if rest.len() == 0 {
            is_error(r, "usage: DELETE <key>"@)
        } else {
            r matches Ok(Command::Delete(k)) && k@ == rest
        }
    } else if word == "RANGE"@ {
        match first_token(rest) {
            None => is_error(r, "usage: RANGE <key1> <key2>"@),
            Some((low, after)) => match first_token(after) {
                None => is_error(r, "usage: RANGE <key1> <key2>"@),
                Some((high, _)) => r matches Ok(Command::Range(l, h)) && l@ == low && h@ == high,
            },
        }
    } else if word == "KEYS"@ {
        r matches Ok(Command::Keys)
    } else if word == "MIN"@ {
        r matches Ok(Command::Min)
    } else if word == "MAX"@ {
        r matches Ok(Command::Max)
    } else if word == "SAVE"@ {
        r matches Ok(Command::Save)
    } else if word == "LOAD"@ {
        r matches Ok(Command::Load)
    } else if word == "EXIT"@ {
        r matches Ok(Command::Exit)
    } else {
        is_error(r, "unknown command '"@ + word + "'"@)
    }
}

/// The command words differ from one another.
proof fn lemma_command_words_distinct()
    ensures
        "SET"@ != "GET"@,
        "SET"@ != "DELETE"@,
        "SET"@ != "RANGE"@,
        "SET"@ != "KEYS"@,
        "SET"@ != "MIN"@,
        "SET"@ != "MAX"@,
        "SET"@ != "SAVE"@,
        "SET"@ != "LOAD"@,
        "SET"@ != "EXIT"@,
        "GET"@ != "DELETE"@,
        "GET"@ != "RANGE"@,
        "GET"@ != "KEYS"@,
        "GET"@ != "MIN"@,
        "GET"@ != "MAX"@,
        "GET"@ != "SAVE"@,
        "GET"@ != "LOAD"@,
        "GET"@ != "EXIT"@,
        "DELETE"@ != "RANGE"@,
        "DELETE"@ != "KEYS"@,
        "DELETE"@ != "MIN"@,
        "DELETE"@ != "MAX"@,
        "DELETE"@ != "SAVE"@,
        "DELETE"@ != "LOAD"@,
        "DELETE"@ != "EXIT"@,
        "RANGE"@ != "KEYS"@,
        "RANGE"@ != "MIN"@,
        "RANGE"@ != "MAX"@,
        "RANGE"@ != "SAVE"@,
        "RANGE"@ != "LOAD"@,
        "RANGE"@ != "EXIT"@,
        "KEYS"@ != "MIN"@,
        "KEYS"@ != "MAX"@,
        "KEYS"@ != "SAVE"@,
        "KEYS"@ != "LOAD"@,
        "KEYS"@ != "EXIT"@,
        "MIN"@ != "MAX"@,
        "MIN"@ != "SAVE"@,
        "MIN"@ != "LOAD"@,
        "MIN"@ != "EXIT"@,
        "MAX"@ != "SAVE"@,
        "MAX"@ != "LOAD"@,
        "MAX"@ != "EXIT"@,
        "SAVE"@ != "LOAD"@,
        "SAVE"@ != "EXIT"@,
        "LOAD"@ != "EXIT"@,
{
    reveal_strlit("SET");
    reveal_strlit("GET");
    reveal_strlit("DELETE");
    reveal_strlit("RANGE");
    reveal_strlit("KEYS");
    reveal_strlit("MIN");
    reveal_strlit("MAX");
    reveal_strlit("SAVE");
    reveal_strlit("LOAD");
    reveal_strlit("EXIT");
    assert("SET"@[0] == 'S' && "SET"@[1] == 'E' && "SET"@.len() == 3);
    assert("GET"@[0] == 'G' && "GET"@[1] == 'E' && "GET"@.len() == 3);
    assert("DELETE"@[0] == 'D' && "DELETE"@[1] == 'E' && "DELETE"@.len() == 6);
    assert("RANGE"@[0] == 'R' && "RANGE"@[1] == 'A' && "RANGE"@.len() == 5);
    assert("KEYS"@[0] == 'K' && "KEYS"@[1] == 'E' && "KEYS"@.len() == 4);
    assert("MIN"@[0] == 'M' && "MIN"@[1] == 'I' && "MIN"@.len() == 3);
    assert("MAX"@[0] == 'M' && "MAX"@[1] == 'A' && "MAX"@.len() == 3);
    assert("SAVE"@[0] == 'S' && "SAVE"@[1] == 'A' && "SAVE"@.len() == 4);
    assert("LOAD"@[0] == 'L' && "LOAD"@[1] == 'O' && "LOAD"@.len() == 4);
    assert("EXIT"@[0] == 'E' && "EXIT"@[1] == 'X' && "EXIT"@.len() == 4);
}

/// `SET <key> <value>` with a key holding no space and a value that neither
/// starts nor ends with white space (it may hold spaces) sets that key to
/// that value.
pub proof fn lemma_parse_set(k: Seq<char>, v: Seq<char>, r: Result<Command, String>)
    requires
        k.len() > 0,
        forall|i: int| 0 <= i < k.len() ==> #[trigger] k[i] != ' ',
        v.len() > 0,
        !is_white_space(v[0]),
        !is_white_space(v.last()),
        parse_outcome("SET"@, k + " "@ + v, r),
    ensures
        r matches Ok(Command::SetValue(a, b)) && a@ == k && b@ == v,
{
    reveal_strlit("SET");
    reveal_strlit(" ");
    let rest = k + " "@ + v;
    assert(rest =~= k + seq![' '] + v);
    assert forall|j: int| 0 <= j < k.len() implies !space_pred()(#[trigger] rest[j]) by {
        assert(rest[j] == k[j]);
    }
    lemma_first_index(rest, space_pred(), k.len() as int);
    assert(rest.take(k.len() as int) =~= k);
    assert(rest.skip(k.len() as int + 1) =~= v);
    assert(trim_start(v) == v);
    assert(trim_end(v) == v);
}

/// GET and DELETE take the whole (trimmed) rest of the line as the key, and
/// answer a usage error when it is empty.
pub proof fn lemma_parse_key_commands(k: Seq<char>, r: Result<Command, String>)
    ensures
        k.len() > 0 && parse_outcome("GET"@, k, r) ==> (r matches Ok(Command::Get(a)) && a@ == k),
        k.len() > 0 && parse_outcome("DELETE"@, k, r) ==> (r matches Ok(Command::Delete(a)) && a@
            == k),
        parse_outcome("GET"@, Seq::empty(), r) ==> r is Err,
        parse_outcome("DELETE"@, Seq::empty(), r) ==> r is Err,
{
    lemma_command_words_distinct();
    reveal_strlit("DELETE");
}

/// `RANGE <low> <high>`, with two words free of white space, asks for the
/// pairs between those two words.
pub proof fn lemma_parse_range(a: Seq<char>, b: Seq<char>, r: Result<Command, String>)
    requires
        a.len() > 0,
        b.len() > 0,
        forall|i: int| 0 <= i < a.len() ==> !is_white_space(#[trigger] a[i]),
        forall|i: int| 0 <= i < b.len() ==> !is_white_space(#[trigger] b[i]),
        parse_outcome("RANGE"@, a + " "@ + b, r),
    ensures
        r matches Ok(Command::Range(x, y)) && x@ == a && y@ == b,
{
    lemma_command_words_distinct();
    reveal_strlit(" ");
    let t = a + " "@ + b;
    assert(t =~= a + seq![' '] + b);
    assert(t[0] == a[0]);
    assert(trim_start(t) == t);
    assert forall|j: int| 0 <= j < a.len() implies !white_space_pred()(#[trigger] t[j]) by {
        assert(t[j] == a[j]);
    }
    assert(t[a.len() as int] == ' ');
    assert(is_white_space(' '));
    lemma_first_index(t, white_space_pred(), a.len() as int);
    assert(t.take(a.len() as int) =~= a);
    let after = t.skip(a.len() as int);
    assert(after =~= seq![' '] + b);
    assert(after.drop_first() =~= b);
    assert(trim_start(b) == b);
    assert(trim_start(after) == b);
    lemma_first_index(b, white_space_pred(), b.len() as int);
    assert(b.take(b.len() as int) =~= b);
}

/// KEYS, MIN, MAX, SAVE, LOAD and EXIT ignore what follows them; any other
/// word that names no command is an unknown command.
pub proof fn lemma_parse_other_words(word: Seq<char>, rest: Seq<char>, r: Result<Command, String>)
    ensures
        parse_outcome("KEYS"@, rest, r) ==> r matches Ok(Command::Keys),
        parse_outcome("MIN"@, rest, r) ==> r matches Ok(Command::Min),
        parse_outcome("MAX"@, rest, r) ==> r matches Ok(Command::Max),
        parse_outcome("SAVE"@, rest, r) ==> r matches Ok(Command::Save),
        parse_outcome("LOAD"@, rest, r) ==> r matches Ok(Command::Load),
        parse_outcome("EXIT"@, rest, r) ==> r matches Ok(Command::Exit),
        word != "SET"@ && word != "GET"@ && word != "DELETE"@ && word != "RANGE"@ && word
            != "KEYS"@ && word != "MIN"@ && word != "MAX"@ && word != "SAVE"@ && word != "LOAD"@
            && word != "EXIT"@ && parse_outcome(word, rest, r) ==> (r matches Err(e) && e@
            == "unknown command '"@ + word + "'"@),
{
    lemma_command_words_distinct();
    reveal_strlit("EXIT");
}

/// Every pair that a SET command of one input line (holding no newline)
/// stores survives the dump, so SAVE then LOAD gives it back.
pub proof fn lemma_set_survives_dump(word: Seq<char>, rest: Seq<char>, r: Result<Command, String>)
    requires
        parse_outcome(word, rest, r),
        !rest.contains('\n'),
        r matches Ok(Command::SetValue(_, _)),
    ensures
        r matches Ok(Command::SetValue(k, v)) && survives_dump(k@, v@),
{
    let i = first_index(rest, space_pred());
    lemma_first_index_bounds(rest, space_pred());
    lemma_trim_ends(rest.skip(i + 1));
    lemma_trim_within(rest.skip(i + 1));
    if let Ok(Command::SetValue(k, v)) = r {
        assert(!k@.contains('\n')) by {
            if k@.contains('\n') {
                let j = choose|j: int| 0 <= j < k@.len() && k@[j] == '\n';
                assert(rest[j] == k@[j]);
            }
        }
        assert(!v@.contains('\n')) by {
            if v@.contains('\n') {
                let j = choose|j: int| 0 <= j < v@.len() && v@[j] == '\n';
                assert(rest.skip(i + 1).contains(v@[j]));
                let m = choose|m: int| 0 <= m < rest.skip(i + 1).len() && #[trigger] rest.skip(i + 1)[m] == v@[j];
                assert(rest[i + 1 + m] == '\n');
            }
        }
        assert forall|j: int| 0 <= j < k@.len() implies k@[j] != ' ' by {
            assert(k@[j] == rest[j]);
            assert(!space_pred()(rest[j]));
        }
    }
}

/// The command word: the line up to its first space.
pub open spec fn command_word(line: Seq<char>) -> Seq<char> {
    line.take(first_index(line, space_pred()))
}

/// The arguments: what follows the first space, trimmed; empty if no space.
pub open spec fn command_rest(line: Seq<char>) -> Seq<char> {
    let i = first_index(line, space_pred());
    if i < line.len() {
        trim(line.skip(i + 1))
    } else {
        Seq::empty()
    }
}

/// Builds a command from its uppercased word and its trimmed arguments.
pub fn parse_words(word: &str, rest: &str) -> (r: Result<Command, String>)
    ensures
        parse_outcome(word@, rest@, r),
{
    if same_str(word, "SET") {
        let cs = chars_of(rest);
        let n = cs.len();
        proof {
            assert(cs@.subrange(0, n as int) =~= rest@);
        }
        let i = find_space(&cs, 0, n);
        if i == n {
            return Err(String::from_str("usage: SET <key> <value>"));
        }
        let (a, b) = trim_bounds(&cs, i + 1, n);
        proof {
            assert(rest@.skip(i + 1) =~= cs@.subrange(i + 1, n as int));
        }
        if a == b {
            return Err(String::from_str("usage: SET <key> <value>"));
        }
        let key = substring(rest, 0, i);
        let value = substring(rest, a, b);
        proof {
            assert(key@ =~= rest@.take(i as int));
        }
        Ok(Command::SetValue(key, value))
    } else if same_str(word, "GET") {
        if rest.is_empty() {
            Err(String::from_str("usage: GET <key>"))
        } else {
            Ok(Command::Get(String::from_str(rest)))
        }
    } else if same_str(word, "DELETE") {
        if rest.is_empty() {
            Err(String::from_str("usage: DELETE <key>"))
        } else {
            Ok(Command::Delete(String::from_str(rest)))
        }
    } else if same_str(word, "RANGE") {
        let cs = chars_of(rest);
        let n = cs.len();
        proof {
            assert(cs@.subrange(0, n as int) =~= rest@);
        }
        let a = skip_white_space(&cs, 0, n);
        if a == n {
            return Err(String::from_str("usage: RANGE <key1> <key2>"));
        }
        let e = find_white_space(&cs, a, n);
        let a2 = skip_white_space(&cs, e, n);
        proof {
            let t = cs@.subrange(a as int, n as int);
            assert(t.take(e - a) =~= cs@.subrange(a as int, e as int));
            assert(t.skip(e - a) =~= cs@.subrange(e as int, n as int));
        }
        if a2 == n {
            return Err(String::from_str("usage: RANGE <key1> <key2>"));
        }
        let e2 = find_white_space(&cs, a2, n);
        proof {
            let t = cs@.subrange(a2 as int, n as int);
            assert(t.take(e2 - a2) =~= cs@.subrange(a2 as int, e2 as int));
        }
        let low = substring(rest, a, e);
        let high = substring(rest, a2, e2);
        Ok(Command::Range(low, high))
    } else if same_str(word, "KEYS") {
        Ok(Command::Keys)
    } else if same_str(word, "MIN") {
        Ok(Command::Min)
    } else if same_str(word, "MAX") {
        Ok(Command::Max)
    } else if same_str(word, "SAVE") {
        Ok(Command::Save)
    } else if same_str(word, "LOAD") {
        Ok(Command::Load)
    } else if same_str(word, "EXIT") {
        Ok(Command::Exit)
    } else {
        let mut e = String::from_str("unknown command '");
        e.append(word);
        e.append("'");
        Err(e)
    }
}

/// Parses a raw input line into a `Command`, or returns a descriptive error
/// string. The command word is matched without regard to case: an ASCII
/// word is uppercased letter by letter (`lemma_case_variant`).
pub fn parse_command(input: &str) -> (r: Result<Command, String>)
    ensures
        parse_outcome(uppercase_of(command_word(input@)), command_rest(input@), r),
        all_ascii(command_word(input@)) ==> parse_outcome(
            ascii_upper(command_word(input@)),
            command_rest(input@),
            r,
        ),
{
    let cs = chars_of(input);
    let n = cs.len();
    let i = find_space(&cs, 0, n);
    proof {
        assert(cs@.subrange(0, n as int) =~= input@);
    }
    let word = substring(input, 0, i);
    let rest = if i < n {
        let (a, b) = trim_bounds(&cs, i + 1, n);
        proof {
            assert(input@.skip(i + 1) =~= cs@.subrange(i + 1, n as int));
        }
        substring(input, a, b)
    } else {
        String::new()
    };
    proof {
        assert(word@ =~= command_word(input@));
        assert(rest@ =~= command_rest(input@));
    }
    let unicode_upper = to_uppercase(word.as_str());
    // An ASCII word's uppercase is computed here, where it is verified.
    let upper = if chars_all_ascii(&chars_of(word.as_str())) {
        ascii_uppercase(word.as_str())
    } else {
        unicode_upper
    };
    parse_words(upper.as_str(), rest.as_str())
}

/// What running `cmd` on a database holding `before` does: it holds `after`
/// and answers `out`.
pub open spec fn executed(
    before: Seq<(Seq<char>, String)>,
    cmd: Command,
    after: Seq<(Seq<char>, String)>,
    out: Seq<char>,
) -> bool {
    match cmd {
        Command::SetValue(k, v) => after == upsert::<String, String>(before, k@, v) && out == "OK"@,
        Command::Get(k) => after == before && out == get_text(before, k@),
        Command::Delete(k) => after == without_key::<String, String>(before, k@) && out
            == delete_text(before, k@),
        Command::Range(l, h) => after == before && out == range_text(before, l@, h@),
        Command::Keys => after == before && out == keys_text(before),
        Command::Min => after == before && out == min_text(before),
        Command::Max => after == before && out == max_text(before),
        Command::Save => after == before && out == "(not implemented)"@,
        Command::Load => after == before && out == "(not implemented)"@,
        Command::Exit => false,
    }
}

/// Running SET and then GET of the same key answers "OK" and then the value
/// that was set, in quotes; every other key answers GET as before the SET.
pub proof fn lemma_execute_set_then_get(
    before: Seq<(Seq<char>, String)>,
    k: String,
    v: String,
    after_set: Seq<(Seq<char>, String)>,
    out_set: Seq<char>,
    g: String,
    after_get: Seq<(Seq<char>, String)>,
    out_get: Seq<char>,
)
    requires
        sorted_keys::<String, String>(before),
        executed(before, Command::SetValue(k, v), after_set, out_set),
        executed(after_set, Command::Get(g), after_get, out_get),
    ensures
        out_set == "OK"@,
        after_get == after_set,
        g@ == k@ ==> out_get == quoted(v@),
        g@ != k@ ==> out_get == get_text(before, g@),
{
    lemma_value_of_upsert::<String, String>(before, k@, v, g@);
}

/// GET, RANGE, KEYS, MIN and MAX leave the database as it was.
pub proof fn lemma_execute_reads_only(
    before: Seq<(Seq<char>, String)>,
    cmd: Command,
    after: Seq<(Seq<char>, String)>,
    out: Seq<char>,
)
    requires
        executed(before, cmd, after, out),
        cmd is Get || cmd is Range || cmd is Keys || cmd is Min || cmd is Max,
    ensures
        after == before,
{
}

/// Running DELETE twice on a key answers "(nil)" the second time, and the
/// key is then unbound.
pub proof fn lemma_execute_delete_twice(
    before: Seq<(Seq<char>, String)>,
    k: String,
    mid: Seq<(Seq<char>, String)>,
    out1: Seq<char>,
    k2: String,
    after: Seq<(Seq<char>, String)>,
    out2: Seq<char>,
)
    requires
        k2@ == k@,
        executed(before, Command::Delete(k), mid, out1),
        executed(mid, Command::Delete(k2), after, out2),
    ensures
        out2 == "(nil)"@,
        forall|i: int| 0 <= i < after.len() ==> #[trigger] after[i].0 != k@,
{
    lemma_delete_text(before, k@);
    let w = without_key::<String, String>(before, k@);
    assert forall|j: int| 0 <= j < w.len() implies #[trigger] w[j].0 != k@ by {
        before.lemma_filter_pred(key_differs::<String, String>(k@), j);
    }
    lemma_delete_text(w, k@);
    assert forall|j: int| 0 <= j < after.len() implies #[trigger] after[j].0 != k@ by {
        w.lemma_filter_pred(key_differs::<String, String>(k@), j);
    }
}

/// Runs a command (other than EXIT) and returns the text to show.
pub fn execute(db: &mut Database, cmd: Command) -> (r: String)
    requires
        old(db).wf(),
        !(cmd is Exit),
        cmd is SetValue ==> old(db)@.len() < usize::MAX,
    ensures
        final(db).wf(),
        executed(old(db)@, cmd, final(db)@, r@),
{
    match cmd {
        Command::SetValue(k, v) => db.set(k, v),
        Command::Get(k) => db.get(k.as_str()),
        Command::Delete(k) => db.delete(k.as_str()),
        Command::Range(low, high) => db.range(low.as_str(), high.as_str()),
        Command::Keys => db.keys(),
        Command::Min => db.min(),
        Command::Max => db.max(),
        Command::Save => db.save(),
        Command::Load => db.load(),
        Command::Exit => {
            assert(false);
            String::new()
        },
    }
}

} // verus!
