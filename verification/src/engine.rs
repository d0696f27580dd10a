//! Command engine: parse one request payload and run it against the
//! dictionary.
//!
//! A payload is read as a UTF-8 string and split on single ASCII spaces;
//! the first token is the verb, the rest are arguments.  `get`, `set`,
//! `del` and `keys` answer as the wire protocol prescribes; anything
//! else is an unknown command.
use crate::codec::{Reply, ReplyAbs};
use crate::oa_map::{OAMap, K_LEN_LIMIT};
use vstd::prelude::*;
use vstd::string::StrSliceExecFns;
use vstd::utf8::{decode_utf8, encode_utf8, valid_utf8};

verus! {

broadcast use vstd::string::group_string_axioms;

/// The index of the first space in `s`, or `s.len()` if there is none.
pub open spec fn first_space(s: Seq<char>) -> int
    decreases s.len(),
{
    if s.len() == 0 {
        0
    } else if s.first() == ' ' {
        0
    } else {
        1 + first_space(s.drop_first())
    }
}

proof fn lemma_first_space_at(s: Seq<char>, k: int)
    requires
        0 <= k <= s.len(),
        forall|j: int| 0 <= j < k ==> s[j] != ' ',
        k < s.len() ==> s[k] == ' ',
    ensures
        first_space(s) == k,
    decreases s.len(),
{
    if s.len() == 0 {
    } else if s.first() == ' ' {
        assert(k == 0);
    } else {
        assert(k > 0) by {
            assert(k < s.len() ==> s[k] == ' ');
        }
        assert(forall|j: int| 0 <= j < s.drop_first().len() ==> s.drop_first()[j] == s[j + 1]);
        lemma_first_space_at(s.drop_first(), k - 1);
    }
}

/// The tokens of `s`, split at every single space: one token per gap,
/// empty tokens kept, always at least one token.
pub open spec fn spec_split_spaces(s: Seq<char>) -> Seq<Seq<char>>
    decreases s.len(),
{
    let i = first_space_clipped(s);
    if i == s.len() {
        seq![s]
    } else {
        seq![s.take(i)] + spec_split_spaces(s.skip(i + 1))
    }
}

/// `first_space`, clipped into `[0, s.len()]` so that recursion on the
/// remainder is visibly well-founded.
pub open spec fn first_space_clipped(s: Seq<char>) -> int {
    let i = first_space(s);
    if 0 <= i <= s.len() {
        i
    } else {
        s.len() as int
    }
}

proof fn lemma_split_nonempty(s: Seq<char>)
    ensures
        spec_split_spaces(s).len() >= 1,
{
}

/// Split `s` at every single ASCII space.
pub fn split_spaces(s: &str) -> (tokens: Vec<String>)
    ensures
        tokens@.map_values(|t: String| t@) == spec_split_spaces(s@),
{
    let n = s.unicode_len();
    let mut tokens: Vec<String> = Vec::new();
    let mut start: usize = 0;
    let mut i: usize = 0;
    proof {
        assert(s@.skip(0) =~= s@);
        assert(tokens@.map_values(|t: String| t@) =~= Seq::<Seq<char>>::empty());
        assert(Seq::<Seq<char>>::empty() + spec_split_spaces(s@) =~= spec_split_spaces(s@));
    }
    while i < n
        invariant
            n == s@.len(),
            0 <= start <= i <= n,
            forall|j: int| start <= j < i ==> s@[j] != ' ',
            spec_split_spaces(s@) == tokens@.map_values(|t: String| t@) + spec_split_spaces(
                s@.skip(start as int),
            ),
        decreases n - i,
    {
        let c = s.get_char(i);
        if c == ' ' {
            let tok = s.substring_char(start, i).to_owned();
            let ghost old_tokens = tokens@;
            tokens.push(tok);
            proof {
                let rest = s@.skip(start as int);
                assert(forall|j: int| 0 <= j < rest.len() ==> rest[j] == s@[j + start]);
                lemma_first_space_at(rest, i - start);
                assert(rest.take(i - start) =~= s@.subrange(start as int, i as int));
                assert(rest.skip(i - start + 1) =~= s@.skip(i + 1));
                assert(tokens@.map_values(|t: String| t@) =~= old_tokens.map_values(
                    |t: String| t@,
                ).push(tok@));
                assert(spec_split_spaces(rest) == seq![rest.take(i - start)]
                    + spec_split_spaces(rest.skip(i - start + 1)));
                assert(old_tokens.map_values(|t: String| t@) + spec_split_spaces(rest)
                    =~= tokens@.map_values(|t: String| t@) + spec_split_spaces(s@.skip(i + 1)));
            }
            start = i + 1;
        }
        i = i + 1;
    }
    let tok = s.substring_char(start, n).to_owned();
    let ghost old_tokens = tokens@;
    tokens.push(tok);
    proof {
        let rest = s@.skip(start as int);
        assert(forall|j: int| 0 <= j < rest.len() ==> rest[j] == s@[j + start]);
        lemma_first_space_at(rest, rest.len() as int);
        assert(rest.take(rest.len() as int) =~= rest);
        assert(rest =~= s@.subrange(start as int, n as int));
        assert(spec_split_spaces(rest) == seq![rest]);
        assert(tokens@.map_values(|t: String| t@) =~= old_tokens.map_values(|t: String| t@).push(
            tok@,
        ));
        assert(old_tokens.map_values(|t: String| t@) + spec_split_spaces(rest)
            =~= tokens@.map_values(|t: String| t@));
    }
    tokens
}

/// Read a request payload as UTF-8 text.  Payloads that are not valid
/// UTF-8 are a protocol violation.
pub fn parse_request(req_buf: &[u8]) -> (r: Option<String>)
    ensures
        r is Some <==> valid_utf8(req_buf@),
        r is Some ==> r.unwrap()@ == decode_utf8(req_buf@) && encode_utf8(r.unwrap()@)
            == req_buf@,
{
    let v = vstd::slice::slice_to_vec(req_buf);
    crate::codec::bytes_to_string(v)
}

/// The dictionary contents after one command: `set` binds, `del`
/// unbinds, everything else leaves the dictionary alone.
pub open spec fn cmd_map_after(
    m: Map<Seq<char>, Seq<char>>,
    argv: Seq<Seq<char>>,
) -> Map<Seq<char>, Seq<char>> {
    if argv.len() >= 3 && argv[0] == "set"@ {
        m.insert(argv[1], argv[2])
    } else if argv.len() >= 2 && argv[0] == "del"@ {
        m.remove(argv[1])
    } else {
        m
    }
}

/// The reply one command draws from table `t`.
pub open spec fn cmd_reply(t: OAMap, argv: Seq<Seq<char>>) -> ReplyAbs {
    if argv.len() == 0 {
        ReplyAbs::Error { code: 1, message: "Unknown command"@ }
    } else if argv[0] == "get"@ {
        if argv.len() < 2 {
            ReplyAbs::Error { code: 2, message: "Insufficient arguments"@ }
        } else if t@.contains_key(argv[1]) {
            ReplyAbs::Str { value: t@[argv[1]] }
        } else {
            ReplyAbs::Nil
        }
    } else if argv[0] == "set"@ {
        if argv.len() < 3 {
            ReplyAbs::Error { code: 2, message: "Insufficient arguments"@ }
        } else {
            ReplyAbs::Nil
        }
    } else if argv[0] == "del"@ {
        if argv.len() < 2 {
            ReplyAbs::Error { code: 2, message: "Insufficient arguments"@ }
        } else if t@.contains_key(argv[1]) {
            ReplyAbs::Str { value: t@[argv[1]] }
        } else {
            ReplyAbs::Nil
        }
    } else if argv[0] == "keys"@ {
        if argv.len() > 1 {
            ReplyAbs::Error { code: 3, message: "Too many arguments"@ }
        } else if t.key_seq().len() == 0 {
            ReplyAbs::Nil
        } else {
            ReplyAbs::Arr { values: t.key_seq() }
        }
    } else {
        ReplyAbs::Error { code: 1, message: "Unknown command"@ }
    }
}

/// The four verbs are pairwise distinct strings.
proof fn lemma_verbs_distinct()
    ensures
        "get"@ != "set"@,
        "get"@ != "del"@,
        "get"@ != "keys"@,
        "set"@ != "del"@,
        "set"@ != "keys"@,
        "del"@ != "keys"@,
{
    reveal_strlit("get");
    reveal_strlit("set");
    reveal_strlit("del");
    reveal_strlit("keys");
    assert("get"@.len() == 3);
    assert("set"@.len() == 3);
    assert("del"@.len() == 3);
    assert("keys"@.len() == 4);
    assert("get"@[0] == 'g');
    assert("set"@[0] == 's');
    assert("del"@[0] == 'd');
}

/// Look the key up; present keys answer with their value, absent ones
/// with NIL.
pub fn do_get(command: &Vec<String>, storage: &OAMap) -> (r: Reply)
    requires
        storage.wf(),
        command@.len() >= 1,
        command@[0]@ == "get"@,
    ensures
        r.abs() == cmd_reply(*storage, command@.map_values(|t: String| t@)),
{
    if command.len() < 2 {
        return Reply::Error { code: 2, message: "Insufficient arguments".to_owned() };
    }
    let key = command[1].clone();
    match storage.get(key) {
        Some(v) => Reply::Str { value: v },
        None => Reply::Nil,
    }
}

/// Bind `argv[1]` to `argv[2]`, overwriting any previous binding.
pub fn do_set(command: &Vec<String>, storage: &mut OAMap) -> (r: Reply)
    requires
        old(storage).wf(),
        old(storage).spec_len() < K_LEN_LIMIT,
        command@.len() >= 1,
        command@[0]@ == "set"@,
    ensures
        final(storage).wf(),
        r.abs() == cmd_reply(*old(storage), command@.map_values(|t: String| t@)),
        final(storage)@ == cmd_map_after(
            old(storage)@,
            command@.map_values(|t: String| t@),
        ),
        final(storage).spec_len() <= old(storage).spec_len() + 1,
{
    proof {
        lemma_verbs_distinct();
    }
    if command.len() < 3 {
        return Reply::Error { code: 2, message: "Insufficient arguments".to_owned() };
    }
    let key = command[1].clone();
    let value = command[2].clone();
    storage.put(key, value);
    Reply::Nil
}

/// Unbind the key; a present key answers with the value it had, an
/// absent one with NIL.
pub fn do_del(command: &Vec<String>, storage: &mut OAMap) -> (r: Reply)
    requires
        old(storage).wf(),
        command@.len() >= 1,
        command@[0]@ == "del"@,
    ensures
        final(storage).wf(),
        r.abs() == cmd_reply(*old(storage), command@.map_values(|t: String| t@)),
        final(storage)@ == cmd_map_after(
            old(storage)@,
            command@.map_values(|t: String| t@),
        ),
        final(storage).spec_len() <= old(storage).spec_len(),
{
    proof {
        lemma_verbs_distinct();
    }
    if command.len() < 2 {
        return Reply::Error { code: 2, message: "Insufficient arguments".to_owned() };
    }
    let key = command[1].clone();
    match storage.get(key) {
        Some(v) => {
            let key_again = command[1].clone();
            storage.delete(key_again);
            Reply::Str { value: v }
        },
        None => {
            proof {
                assert(old(storage)@.remove(command@[1]@) =~= old(storage)@);
            }
            Reply::Nil
        },
    }
}

/// Enumerate all live keys; an empty dictionary answers with NIL.
pub fn do_keys(command: &Vec<String>, storage: &OAMap) -> (r: Reply)
    requires
        storage.wf(),
        command@.len() >= 1,
        command@[0]@ == "keys"@,
    ensures
        r.abs() == cmd_reply(*storage, command@.map_values(|t: String| t@)),
{
    proof {
        lemma_verbs_distinct();
    }
    if command.len() > 1 {
        return Reply::Error { code: 3, message: "Too many arguments".to_owned() };
    }
    let ks = storage.keys();
    if ks.is_empty() {
        Reply::Nil
    } else {
        Reply::Arr { values: ks }
    }
}

/// Run one request payload against the dictionary: parse it as UTF-8,
/// split it on spaces, dispatch on the verb.  `None` means the payload
/// was not UTF-8, which closes the connection.
pub fn do_request(req_buf: &[u8], storage: &mut OAMap) -> (r: Option<Reply>)
    requires
        old(storage).wf(),
        old(storage).spec_len() < K_LEN_LIMIT,
    ensures
        final(storage).wf(),
        final(storage).spec_len() <= old(storage).spec_len() + 1,
        match r {
            None => !valid_utf8(req_buf@) && *final(storage) == *old(storage),
            Some(rep) => {
                &&& valid_utf8(req_buf@)
                &&& rep.abs() == cmd_reply(
                    *old(storage),
                    spec_split_spaces(decode_utf8(req_buf@)),
                )
                &&& final(storage)@ == cmd_map_after(
                    old(storage)@,
                    spec_split_spaces(decode_utf8(req_buf@)),
                )
            },
        },
{
    let parsed = parse_request(req_buf);
    let text = match parsed {
        None => {
            return None;
        },
        Some(text) => text,
    };
    let command = split_spaces(text.as_str());
    let ghost argv = spec_split_spaces(decode_utf8(req_buf@));
    proof {
        assert(command@.map_values(|t: String| t@) == argv);
        assert(command@.len() == argv.len());
        lemma_split_nonempty(text@);
        assert(command@[0]@ == argv[0]);
    }
    proof {
        lemma_verbs_distinct();
    }
    let verb: &String = &command[0];
    if *verb == "get".to_owned() {
        Some(do_get(&command, storage))
    } else if *verb == "set".to_owned() {
        Some(do_set(&command, storage))
    } else if *verb == "del".to_owned() {
        Some(do_del(&command, storage))
    } else if *verb == "keys".to_owned() {
        Some(do_keys(&command, storage))
    } else {
        Some(Reply::Error { code: 1, message: "Unknown command".to_owned() })
    }
}

/// Setting a key and then getting it answers with the value just set.
pub proof fn lemma_set_then_get(t1: OAMap, t2: OAMap, k: Seq<char>, v: Seq<char>)
    requires
        t2@ == cmd_map_after(t1@, seq!["set"@, k, v]),
    ensures
        cmd_reply(t2, seq!["get"@, k]) == (ReplyAbs::Str { value: v }),
{
    let argv_set = seq!["set"@, k, v];
    assert(argv_set.len() == 3 && argv_set[0] == "set"@ && argv_set[1] == k && argv_set[2] == v);
    let argv_get = seq!["get"@, k];
    assert(argv_get.len() == 2 && argv_get[0] == "get"@ && argv_get[1] == k);
    assert(t2@ == t1@.insert(k, v));
    assert(t2@.contains_key(k) && t2@[k] == v);
}

/// Setting a key twice and then getting it answers with the second
/// value.
pub proof fn lemma_set_overwrite(
    t1: OAMap,
    t2: OAMap,
    t3: OAMap,
    k: Seq<char>,
    v1: Seq<char>,
    v2: Seq<char>,
)
    requires
        t2@ == cmd_map_after(t1@, seq!["set"@, k, v1]),
        t3@ == cmd_map_after(t2@, seq!["set"@, k, v2]),
    ensures
        cmd_reply(t3, seq!["get"@, k]) == (ReplyAbs::Str { value: v2 }),
{
    lemma_set_then_get(t2, t3, k, v2);
}

/// Getting a key the dictionary does not hold answers with NIL.
pub proof fn lemma_get_absent(t: OAMap, k: Seq<char>)
    requires
        !t@.contains_key(k),
    ensures
        cmd_reply(t, seq!["get"@, k]) == ReplyAbs::Nil,
{
    let argv_get = seq!["get"@, k];
    assert(argv_get.len() == 2 && argv_get[0] == "get"@ && argv_get[1] == k);
}

/// Deleting a key and then getting it answers with NIL.
pub proof fn lemma_get_after_del(t1: OAMap, t2: OAMap, k: Seq<char>)
    requires
        t2@ == cmd_map_after(t1@, seq!["del"@, k]),
    ensures
        cmd_reply(t2, seq!["get"@, k]) == ReplyAbs::Nil,
{
    let argv_del = seq!["del"@, k];
    assert(argv_del.len() == 2 && argv_del[0] == "del"@ && argv_del[1] == k);
    assert(t2@ == t1@.remove(k));
    lemma_get_absent(t2, k);
}

/// Deleting answers with the value the key had, or NIL when it had
/// none, and the key is gone afterwards.
pub proof fn lemma_del_reply(t1: OAMap, t2: OAMap, k: Seq<char>)
    requires
        t2@ == cmd_map_after(t1@, seq!["del"@, k]),
    ensures
        t1@.contains_key(k) ==> cmd_reply(t1, seq!["del"@, k]) == (ReplyAbs::Str {
            value: t1@[k],
        }),
        !t1@.contains_key(k) ==> cmd_reply(t1, seq!["del"@, k]) == ReplyAbs::Nil,
        !t2@.contains_key(k),
{
    lemma_verbs_distinct();
    let argv_del = seq!["del"@, k];
    assert(argv_del.len() == 2 && argv_del[0] == "del"@ && argv_del[1] == k);
    assert(t2@ == t1@.remove(k));
}

/// The keys command answers NIL on an empty dictionary, and otherwise
/// an array holding every present key exactly once.
pub proof fn lemma_keys_reply(t: OAMap)
    requires
        t.wf(),
    ensures
        t.spec_len() == 0 ==> cmd_reply(t, seq!["keys"@]) == ReplyAbs::Nil && (forall|
            k: Seq<char>,
        | !t@.contains_key(k)),
        t.spec_len() > 0 ==> (cmd_reply(t, seq!["keys"@]) matches ReplyAbs::Arr { values }
            && values.no_duplicates() && values.len() == t.spec_len() && (forall|k: Seq<char>|
            #[trigger] values.contains(k) <==> t@.contains_key(k))),
{
    lemma_verbs_distinct();
    let argv = seq!["keys"@];
    assert(argv.len() == 1 && argv[0] == "keys"@);
    t.lemma_key_seq();
    if t.spec_len() == 0 {
        assert forall|k: Seq<char>| !t@.contains_key(k) by {
            if t@.contains_key(k) {
                assert(t.key_seq().contains(k));
            }
        }
    }
}

} // verus!
