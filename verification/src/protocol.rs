//! The command protocol: one request text in, one response text out, and the
//! change to the cache that the request asks for.

use vstd::prelude::*;
use vstd::string::*;
use crate::store::{CacheEntry, CacheStore, Entries, lookup, upsert};
use crate::store::{lemma_lookup_upsert, lemma_upsert_idempotent, lemma_upsert_shape};
use crate::text::{begins_with_word, chars_of, decimal, decimal_string, same_text, skip_chars};
use crate::text::{split_two, trim};
use crate::text::{decode_lossy, lossy_text};
use crate::text::{is_space, opens_with, tail_from, trimmed, two_fields};
use crate::text::{lemma_trimmed_beginning, lemma_trimmed_fixed};
use crate::text::{lemma_no_separator, lemma_trimmed_ignores_trailing_space, lemma_two_fields_joined};
use crate::text::{lemma_trimmed_idempotent, lemma_trimmed_keeps_free, lemma_two_fields_free};

verus! {

/// What a request text asks for.
pub enum Request {
    /// Read the value under `key`.
    Get { key: Seq<char> },
    /// List every entry.
    GetAll,
    /// Count the entries.
    GetLen,
    /// Write locally and replicate to the peers.
    SetKey { key: Seq<char>, value: Seq<char> },
    /// Apply a write that a peer replicated; it goes no further.
    Broadcast { key: Seq<char>, value: Seq<char> },
    /// A `SET` whose payload is not one key and one value.
    InvalidSet,
    /// A `BROADCAST` whose payload is not one key and one value.
    InvalidBroadcast,
    /// Anything else.
    Unknown,
}

/// A parsed request.
#[derive(Debug, Clone, PartialEq, Eq)]
pub enum Command {
    Get(String),
    GetAll,
    GetLen,
    SetKey(String, String),
    Broadcast(String, String),
    InvalidSet,
    InvalidBroadcast,
    Unknown,
}

impl View for Command {
    type V = Request;

    open spec fn view(&self) -> Request {
        match self {
            Command::Get(key) => Request::Get { key: key@ },
            Command::GetAll => Request::GetAll,
            Command::GetLen => Request::GetLen,
            Command::SetKey(key, value) => Request::SetKey { key: key@, value: value@ },
            Command::Broadcast(key, value) => Request::Broadcast { key: key@, value: value@ },
            Command::InvalidSet => Request::InvalidSet,
            Command::InvalidBroadcast => Request::InvalidBroadcast,
            Command::Unknown => Request::Unknown,
        }
    }
}

/// The answer to one request, and the write to hand to the replicator, if any.
#[derive(Debug, Clone, PartialEq, Eq)]
pub struct Reply {
    pub response: String,
    pub replicate: Option<CacheEntry>,
}

/// What handling one request comes to: the cache afterwards, the response, and
/// the pair to replicate.
pub struct Outcome {
    pub entries: Entries,
    pub response: Seq<char>,
    pub replicate: Option<(Seq<char>, Seq<char>)>,
}

/// The key and the value of a `key=value` payload, each trimmed; `None` unless the
/// payload holds exactly one `=`.
pub open spec fn key_value(payload: Seq<char>) -> Option<(Seq<char>, Seq<char>)> {
    match two_fields(payload, '=') {
        Some((key, value)) => Some((trimmed(key), trimmed(value))),
        None => None,
    }
}

/// The meaning of a request text. `GET_ALL` and `GET_LEN` stand alone: the
/// request, trimmed, is the verb. `GET`, `SET` and `BROADCAST` open the request
/// as a whole word, and what follows the verb and the white space after it is
/// the payload. Any other text is unknown, also one that only begins like a verb.
pub open spec fn parse(request: Seq<char>) -> Request {
    if trimmed(request) == "GET_ALL"@ {
        Request::GetAll
    } else if trimmed(request) == "GET_LEN"@ {
        Request::GetLen
    } else if opens_with(request, "GET"@) {
        Request::Get { key: trimmed(tail_from(request, 4)) }
    } else if opens_with(request, "SET"@) {
        match key_value(tail_from(request, 4)) {
            Some((key, value)) => Request::SetKey { key, value },
            None => Request::InvalidSet,
        }
    } else if opens_with(request, "BROADCAST"@) {
        match key_value(tail_from(request, 10)) {
            Some((key, value)) => Request::Broadcast { key, value },
            None => Request::InvalidBroadcast,
        }
    } else {
        Request::Unknown
    }
}

/// One line of a listing.
pub open spec fn line(entry: (Seq<char>, Seq<char>)) -> Seq<char> {
    entry.0 + seq!['='] + entry.1
}

/// Every entry as `key=value`, one per line, in iteration order.
pub open spec fn listing(entries: Entries) -> Seq<char>
    decreases entries.len(),
{
    if entries.len() == 0 {
        Seq::empty()
    } else if entries.len() == 1 {
        line(entries[0])
    } else {
        listing(entries.drop_last()) + seq!['\n'] + line(entries.last())
    }
}

/// The cache after a request: only a well-formed `SET` or `BROADCAST` writes.
pub open spec fn entries_after(entries: Entries, request: Request) -> Entries {
    match request {
        Request::SetKey { key, value } => upsert(entries, key, value),
        Request::Broadcast { key, value } => upsert(entries, key, value),
        _ => entries,
    }
}

/// The response text to a request, read against the cache as the request found it.
pub open spec fn response_to(entries: Entries, request: Request) -> Seq<char> {
    match request {
        Request::Get { key } => match lookup(entries, key) {
            Some(value) => value,
            None => "Not Found"@,
        },
        Request::GetAll => listing(entries),
        Request::GetLen => decimal(entries.len()),
        Request::SetKey { .. } => "OK: SET successful"@,
        Request::Broadcast { .. } => "OK: BROADCAST applied"@,
        Request::InvalidSet => "Invalid SET command"@,
        Request::InvalidBroadcast => "Invalid BROADCAST command"@,
        Request::Unknown => "Unknown command"@,
    }
}

/// The write that a request sends on to the peers: that of a local `SET`, and no other.
pub open spec fn replication_of(request: Request) -> Option<(Seq<char>, Seq<char>)> {
    match request {
        Request::SetKey { key, value } => Some((key, value)),
        _ => None,
    }
}

/// Handling one request text against a cache.
pub open spec fn handled(entries: Entries, request: Seq<char>) -> Outcome {
    let r = parse(request);
    Outcome {
        entries: entries_after(entries, r),
        response: response_to(entries, r),
        replicate: replication_of(r),
    }
}

/// Reads a request text.
pub fn parse_command(request: &str) -> (c: Command)
    ensures
        c@ == parse(request@),
{
    let chars = chars_of(request);
    let bare = chars_of(trim(request));
    if same_text(&bare, "GET_ALL") {
        Command::GetAll
    } else if same_text(&bare, "GET_LEN") {
        Command::GetLen
    } else if begins_with_word(&chars, "GET") {
        Command::Get(trim(skip_chars(request, 4)).to_owned())
    } else if begins_with_word(&chars, "SET") {
        match split_two(skip_chars(request, 4), '=') {
            Some((key, value)) => Command::SetKey(trim(key).to_owned(), trim(value).to_owned()),
            None => Command::InvalidSet,
        }
    } else if begins_with_word(&chars, "BROADCAST") {
        match split_two(skip_chars(request, 10), '=') {
            Some((key, value)) => Command::Broadcast(trim(key).to_owned(), trim(value).to_owned()),
            None => Command::InvalidBroadcast,
        }
    } else {
        Command::Unknown
    }
}

/// Writes out every entry as `key=value`, one per line.
pub fn list_entries(store: &CacheStore) -> (r: String)
    ensures
        r@ == listing(store@),
{
    let mut r = String::new();
    let n = store.len();
    let mut i: usize = 0;
    while i < n
        invariant
            n == store@.len(),
            0 <= i <= n,
            r@ == listing(store@.take(i as int)),
        decreases n - i,
    {
        let ghost before = store@.take(i as int);
        let ghost next = store@.take(i + 1);
        assert(next.drop_last() =~= before);
        assert(next.last() == store@[i as int]);
        let ghost old_r = r@;
        if i > 0 {
            r.append("\n");
        }
        let entry = store.entry(i);
        r.append(entry.key.as_str());
        r.append("=");
        r.append(entry.value.as_str());
        proof {
            reveal_strlit("\n");
            reveal_strlit("=");
            assert("="@ =~= seq!['=']);
            assert("\n"@ =~= seq!['\n']);
            if i == 0 {
                assert(before =~= Seq::<(Seq<char>, Seq<char>)>::empty());
                assert(r@ =~= line(next[0]));
            } else {
                assert(r@ =~= old_r + seq!['\n'] + line(next.last()));
            }
        }
        i += 1;
    }
    assert(store@.take(n as int) =~= store@);
    r
}

/// Carries out a parsed request against the cache.
pub fn execute(store: &mut CacheStore, command: Command) -> (reply: Reply)
    ensures
        final(store)@ == entries_after(old(store)@, command@),
        reply.response@ == response_to(old(store)@, command@),
        match reply.replicate {
            Some(entry) => replication_of(command@) == Some(entry@),
            None => replication_of(command@).is_none(),
        },
        old(store).wf() ==> final(store).wf(),
{
    match command {
        Command::Get(key) => {
            let response = match store.get(key.as_str()) {
                Some(value) => value.clone(),
                None => "Not Found".to_owned(),
            };
            Reply { response, replicate: None }
        },
        Command::GetAll => Reply { response: list_entries(store), replicate: None },
        Command::GetLen => Reply { response: decimal_string(store.len() as u64), replicate: None },
        Command::SetKey(key, value) => {
            let entry = CacheEntry::new(key.clone(), value.clone());
            store.set(key, value);
            Reply { response: "OK: SET successful".to_owned(), replicate: Some(entry) }
        },
        Command::Broadcast(key, value) => {
            store.set(key, value);
            Reply { response: "OK: BROADCAST applied".to_owned(), replicate: None }
        },
        Command::InvalidSet => Reply {
            response: "Invalid SET command".to_owned(),
            replicate: None,
        },
        Command::InvalidBroadcast => Reply {
            response: "Invalid BROADCAST command".to_owned(),
            replicate: None,
        },
        Command::Unknown => Reply { response: "Unknown command".to_owned(), replicate: None },
    }
}

/// Handles one request: parses it, applies it to the cache, and answers.
pub fn handle_request(store: &mut CacheStore, request: &str) -> (reply: Reply)
    ensures
        final(store)@ == handled(old(store)@, request@).entries,
        reply.response@ == handled(old(store)@, request@).response,
        match reply.replicate {
            Some(entry) => handled(old(store)@, request@).replicate == Some(entry@),
            None => handled(old(store)@, request@).replicate.is_none(),
        },
        old(store).wf() ==> final(store).wf(),
{
    let command = parse_command(request);
    execute(store, command)
}

/// Serves what one read from a connection brought: no bytes mean that the client
/// closed, and call for no answer; any bytes are one request, read as text.
pub fn handle_bytes(store: &mut CacheStore, received: &[u8]) -> (reply: Option<Reply>)
    ensures
        match reply {
            Some(reply) => {
                let outcome = handled(old(store)@, lossy_text(received@));
                &&& received@.len() > 0
                &&& final(store)@ == outcome.entries
                &&& reply.response@ == outcome.response
                &&& match reply.replicate {
                    Some(entry) => outcome.replicate == Some(entry@),
                    None => outcome.replicate.is_none(),
                }
            },
            None => received@.len() == 0 && final(store)@ == old(store)@,
        },
        old(store).wf() ==> final(store).wf(),
{
    if received.len() == 0 {
        None
    } else {
        let request = decode_lossy(received);
        Some(handle_request(store, request.as_str()))
    }
}

/// The text of a request for the value under `key`.
pub open spec fn get_text(key: Seq<char>) -> Seq<char> {
    "GET "@ + key
}

/// The text of a request to write `value` under `key`, as a client sends it.
pub open spec fn set_text(key: Seq<char>, value: Seq<char>) -> Seq<char> {
    "SET "@ + key + seq!['='] + value + seq!['\n']
}

/// Builds the request for the value under `key`.
pub fn get_request(key: &str) -> (r: String)
    ensures
        r@ == get_text(key@),
{
    let mut r = "GET ".to_owned();
    r.append(key);
    r
}

/// Builds the request to write `value` under `key`.
pub fn set_request(key: &str, value: &str) -> (r: String)
    ensures
        r@ == set_text(key@, value@),
{
    let mut r = "SET ".to_owned();
    r.append(key);
    r.append("=");
    r.append(value);
    r.append("\n");
    proof {
        reveal_strlit("=");
        reveal_strlit("\n");
        assert("="@ =~= seq!['=']);
        assert("\n"@ =~= seq!['\n']);
    }
    r
}

/// A text that begins with a character that is neither white space nor `G`, or
/// whose fourth character is not `_`, is neither of the two requests that stand alone.
pub proof fn lemma_not_bare(request: Seq<char>)
    requires
        request.len() > 0,
        !is_space(request.first()),
        request.first() != 'G' || (request.len() > 3 && request[3] != '_'),
    ensures
        trimmed(request) != "GET_ALL"@,
        trimmed(request) != "GET_LEN"@,
{
    reveal_strlit("GET_ALL");
    reveal_strlit("GET_LEN");
    lemma_trimmed_beginning(request);
    let bare = trimmed(request);
    assert(bare[0] == request[0]);
    if bare.len() > 3 {
        assert(bare[3] == request[3]);
    }
}

/// A payload made of a key, `=`, a value and a line end, where neither key nor
/// value holds `=`, gives the trimmed key and the trimmed value.
pub proof fn lemma_key_value_line(key: Seq<char>, value: Seq<char>)
    requires
        !key.contains('='),
        !value.contains('='),
    ensures
        key_value(key + seq!['='] + value + seq!['\n']) == Some((trimmed(key), trimmed(value))),
{
    let line_end = seq!['\n'];
    let right = value + line_end;
    assert(key + seq!['='] + value + line_end =~= key + seq!['='] + right);
    assert(!right.contains('=')) by {
        if right.contains('=') {
            let i = choose|i: int| 0 <= i < right.len() && right[i] == '=';
            if i < value.len() {
                assert(value[i] == '=');
            }
        }
    }
    lemma_two_fields_joined(key, right, '=');
    lemma_trimmed_ignores_trailing_space(value, line_end);
}

/// A request for a key is read as one, the key trimmed.
pub proof fn lemma_parse_get_text(key: Seq<char>)
    ensures
        parse(get_text(key)) == (Request::Get { key: trimmed(key) }),
{
    reveal_strlit("GET ");
    reveal_strlit("GET");
    let request = get_text(key);
    assert(request.subrange(0, 3) =~= "GET"@);
    assert(request[3] == ' ');
    lemma_not_bare(request);
    assert(tail_from(request, 4) =~= key);
}

/// A write request whose key and value hold no `=` is read as a write of the
/// trimmed key and the trimmed value.
pub proof fn lemma_parse_set_text(key: Seq<char>, value: Seq<char>)
    requires
        !key.contains('='),
        !value.contains('='),
    ensures
        parse(set_text(key, value)) == (Request::SetKey {
            key: trimmed(key),
            value: trimmed(value),
        }),
{
    reveal_strlit("SET ");
    reveal_strlit("SET");
    reveal_strlit("GET");
    let request = set_text(key, value);
    assert(request.subrange(0, 3) =~= "SET"@);
    assert(request.subrange(0, 3)[0] == 'S');
    assert(request[3] == ' ');
    lemma_not_bare(request);
    assert(tail_from(request, 4) =~= key + seq!['='] + value + seq!['\n']);
    lemma_key_value_line(key, value);
}

/// A key that was just written reads back as the value written: after a `SET` the
/// `GET` of the same key answers with that value, trimmed.
pub proof fn lemma_get_after_set(entries: Entries, key: Seq<char>, value: Seq<char>)
    requires
        !key.contains('='),
        !value.contains('='),
    ensures
        handled(handled(entries, set_text(key, value)).entries, get_text(key)).response == trimmed(
            value,
        ),
        handled(entries, set_text(key, value)).response == "OK: SET successful"@,
{
    lemma_parse_set_text(key, value);
    lemma_parse_get_text(key);
    lemma_lookup_upsert(entries, trimmed(key), trimmed(value), trimmed(key));
}

/// A request leaves every key that it does not write as it was.
pub proof fn lemma_other_keys_untouched(entries: Entries, request: Seq<char>, key: Seq<char>)
    requires
        match parse(request) {
            Request::SetKey { key: written, .. } => written != key,
            Request::Broadcast { key: written, .. } => written != key,
            _ => true,
        },
    ensures
        lookup(handled(entries, request).entries, key) == lookup(entries, key),
{
    match parse(request) {
        Request::SetKey { key: written, value } => {
            lemma_lookup_upsert(entries, written, value, key);
        },
        Request::Broadcast { key: written, value } => {
            lemma_lookup_upsert(entries, written, value, key);
        },
        _ => {},
    }
}

/// Reading an absent key is answered with `Not Found`, and changes nothing.
pub proof fn lemma_get_absent(entries: Entries, key: Seq<char>)
    requires
        lookup(entries, trimmed(key)).is_none(),
    ensures
        handled(entries, get_text(key)).response == "Not Found"@,
        handled(entries, get_text(key)).entries == entries,
        handled(entries, get_text(key)).replicate.is_none(),
{
    lemma_parse_get_text(key);
}

/// A `SET` whose payload is not one key and one value, as when it holds no `=`, is
/// answered with `Invalid SET command`; the cache and its count stay as they were.
pub proof fn lemma_malformed_set(entries: Entries, request: Seq<char>)
    requires
        opens_with(request, "SET"@),
        !tail_from(request, 4).contains('=') || two_fields(tail_from(request, 4), '=').is_none(),
    ensures
        handled(entries, request).response == "Invalid SET command"@,
        handled(entries, request).entries == entries,
        handled(entries, request).replicate.is_none(),
        handled(handled(entries, request).entries, "GET_LEN"@).response == handled(
            entries,
            "GET_LEN"@,
        ).response,
{
    reveal_strlit("SET");
    reveal_strlit("GET");
    assert("SET"@ =~= request.subrange(0, 3));
    assert(request.subrange(0, 3)[0] == 'S');
    lemma_not_bare(request);
    if !tail_from(request, 4).contains('=') {
        lemma_no_separator(tail_from(request, 4), '=');
    }
}

/// A text whose first word is no verb is answered with `Unknown command`, and
/// changes nothing.
pub proof fn lemma_unknown_first_word(entries: Entries, request: Seq<char>)
    requires
        trimmed(request) != "GET_ALL"@,
        trimmed(request) != "GET_LEN"@,
        !opens_with(request, "GET"@),
        !opens_with(request, "SET"@),
        !opens_with(request, "BROADCAST"@),
    ensures
        handled(entries, request).response == "Unknown command"@,
        handled(entries, request).entries == entries,
        handled(entries, request).replicate.is_none(),
{
}

/// A text that begins like `GET`, `SET` or `BROADCAST` and goes on without white
/// space, as `SETTLE` does, names no verb: it is unknown, and changes nothing.
pub proof fn lemma_longer_word_is_unknown(entries: Entries, request: Seq<char>, verb: Seq<char>)
    requires
        verb == "GET"@ || verb == "SET"@ || verb == "BROADCAST"@,
        verb.is_prefix_of(request),
        request.len() > verb.len(),
        !is_space(request[verb.len() as int]),
        trimmed(request) != "GET_ALL"@,
        trimmed(request) != "GET_LEN"@,
    ensures
        handled(entries, request).response == "Unknown command"@,
        handled(entries, request).entries == entries,
        handled(entries, request).replicate.is_none(),
{
    reveal_strlit("GET");
    reveal_strlit("SET");
    reveal_strlit("BROADCAST");
    assert(verb[0] == request.subrange(0, verb.len() as int)[0]);
    if "GET"@.is_prefix_of(request) {
        assert("GET"@[0] == request.subrange(0, 3)[0]);
    }
    if "SET"@.is_prefix_of(request) {
        assert("SET"@[0] == request.subrange(0, 3)[0]);
    }
    if "BROADCAST"@.is_prefix_of(request) {
        assert("BROADCAST"@[0] == request.subrange(0, 9)[0]);
    }
}

/// The two requests without a payload are read as what they name.
pub proof fn lemma_parse_bare_requests()
    ensures
        parse("GET_LEN"@) == Request::GetLen,
        parse("GET_ALL"@) == Request::GetAll,
{
    reveal_strlit("GET_ALL");
    reveal_strlit("GET_LEN");
    lemma_trimmed_fixed("GET_LEN"@);
    lemma_trimmed_fixed("GET_ALL"@);
    assert("GET_LEN"@[4] == 'L');
    assert("GET_ALL"@[4] == 'A');
}

/// After a well-formed `SET` the count is one more when the key is new, and the
/// same when the key was there; the new count is what `GET_LEN` answers.
pub proof fn lemma_set_counts(entries: Entries, request: Seq<char>)
    requires
        parse(request) is SetKey,
    ensures
        handled(handled(entries, request).entries, "GET_LEN"@).response == decimal(
            if lookup(entries, parse(request)->SetKey_key).is_some() {
                entries.len()
            } else {
                entries.len() + 1
            },
        ),
{
    lemma_parse_bare_requests();
    match parse(request) {
        Request::SetKey { key, value } => {
            lemma_upsert_shape(entries, key, value);
        },
        _ => {},
    }
}

/// Whether `part` stands in `text` at offset `at`.
pub open spec fn stands_at(text: Seq<char>, part: Seq<char>, at: int) -> bool {
    0 <= at && at + part.len() <= text.len() && text.subrange(at, at + part.len()) == part
}

/// The listing holds every entry: the line of each stands in it whole.
pub proof fn lemma_listing_holds_every_entry(entries: Entries, i: int)
    requires
        0 <= i < entries.len(),
    ensures
        exists|at: int| stands_at(listing(entries), line(entries[i]), at),
    decreases entries.len(),
{
    let whole = listing(entries);
    let this = line(entries[i]);
    if entries.len() == 1 {
        assert(whole.subrange(0, this.len() as int) =~= this);
        assert(stands_at(whole, this, 0));
    } else if i == entries.len() - 1 {
        let at = whole.len() - this.len();
        assert(whole.subrange(at, at + this.len()) =~= this);
        assert(stands_at(whole, this, at));
    } else {
        let earlier = entries.drop_last();
        assert(earlier[i] == entries[i]);
        lemma_listing_holds_every_entry(earlier, i);
        let at = choose|at: int| stands_at(listing(earlier), this, at);
        assert(whole.subrange(at, at + this.len()) =~= listing(earlier).subrange(
            at,
            at + this.len(),
        ));
        assert(stands_at(whole, this, at));
    }
}

/// Handling the same request a second time leaves the cache as the first time
/// left it; so a replicated write that arrives twice is applied once.
pub proof fn lemma_repeat_changes_nothing(entries: Entries, request: Seq<char>)
    ensures
        handled(handled(entries, request).entries, request).entries == handled(
            entries,
            request,
        ).entries,
{
    match parse(request) {
        Request::SetKey { key, value } => {
            lemma_upsert_idempotent(entries, key, value);
        },
        Request::Broadcast { key, value } => {
            lemma_upsert_idempotent(entries, key, value);
        },
        _ => {},
    }
}

/// A `BROADCAST` is never sent on: whatever follows the verb, handling the
/// request hands nothing to the replicator.
pub proof fn lemma_broadcast_not_replicated(entries: Entries, request: Seq<char>)
    requires
        "BROADCAST"@.is_prefix_of(request),
    ensures
        handled(entries, request).replicate.is_none(),
        opens_with(request, "BROADCAST"@) ==> handled(entries, request).response
            == "OK: BROADCAST applied"@ || handled(entries, request).response
            == "Invalid BROADCAST command"@,
{
    reveal_strlit("BROADCAST");
    reveal_strlit("SET");
    reveal_strlit("GET");
    assert("BROADCAST"@ =~= request.subrange(0, 9));
    assert(request.subrange(0, 3)[0] == 'B');
    lemma_not_bare(request);
}

/// Only a well-formed `SET` is handed to the replicator, with the pair it wrote.
pub proof fn lemma_replication_only_of_set(entries: Entries, request: Seq<char>)
    ensures
        handled(entries, request).replicate.is_some() <==> parse(request) is SetKey,
        handled(entries, request).replicate matches Some((key, value)) ==> lookup(
            handled(entries, request).entries,
            key,
        ) == Some(value),
{
    match parse(request) {
        Request::SetKey { key, value } => {
            lemma_lookup_upsert(entries, key, value, key);
        },
        _ => {},
    }
}

/// The key and the value of a parsed payload are trimmed and hold no `=`.
pub proof fn lemma_key_value_clean(payload: Seq<char>)
    ensures
        key_value(payload) matches Some((key, value)) ==> {
            &&& !key.contains('=')
            &&& !value.contains('=')
            &&& trimmed(key) == key
            &&& trimmed(value) == value
        },
{
    lemma_two_fields_free(payload, '=');
    match two_fields(payload, '=') {
        Some((left, right)) => {
            lemma_trimmed_keeps_free(left, '=');
            lemma_trimmed_keeps_free(right, '=');
            lemma_trimmed_idempotent(left);
            lemma_trimmed_idempotent(right);
        },
        None => {},
    }
}

} // verus!
