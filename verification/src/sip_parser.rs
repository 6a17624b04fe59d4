//! A SIP-like request read off a character stream.
//!
//! A request is a request line of three tokens (method, target, protocol
//! version), then header lines of the form `Name: Value` up to a blank line,
//! then a body that runs to the end of the stream. [`parse`] says what a
//! stream holds; [`SipParser`] computes it.
use crate::chars::{
    ascii_whitespace, is_ascii_whitespace, is_whitespace, lemma_trim_ends, push_char, string_of,
    trim, trim_bounds, whitespace,
};
use crate::text_reader::{
    after_line, first_line, lemma_line_bounds, lemma_round_trip, text_of, TextReader,
};
use vstd::prelude::*;
use vstd::slice::slice_subrange;
use vstd::string::StringExecFns;

verus! {

/// A header as it is stored: a name and its value.
pub type Entry = (Seq<char>, Seq<char>);

/// Why a stream holds no request.
#[derive(Debug, Clone, Copy, PartialEq, Eq)]
pub enum ParseError {
    /// A line of the header block holds no colon.
    MissingColon,
}

/// `stream` without the ASCII whitespace at its front.
pub open spec fn skip_blanks(stream: Seq<char>) -> Seq<char>
    decreases stream.len(),
{
    if stream.len() > 0 && ascii_whitespace(stream.first()) {
        skip_blanks(stream.drop_first())
    } else {
        stream
    }
}

/// The number of characters at the front of `stream` before its first
/// whitespace character, or before its end where it holds none.
pub open spec fn token_len(stream: Seq<char>) -> nat
    decreases stream.len(),
{
    if stream.len() == 0 || whitespace(stream.first()) {
        0
    } else {
        1 + token_len(stream.drop_first())
    }
}

/// The token at the front of `stream`. It is empty where the stream is
/// empty or opens with whitespace.
pub open spec fn token(stream: Seq<char>) -> Seq<char> {
    stream.take(token_len(stream) as int)
}

/// What follows the token at the front of `stream`.
pub open spec fn after_token(stream: Seq<char>) -> Seq<char> {
    stream.skip(token_len(stream) as int)
}

/// What [`skip_blanks`] leaves: the end of `stream` from its first character
/// that is no ASCII whitespace.
pub proof fn lemma_skip_blanks(stream: Seq<char>)
    ensures
        skip_blanks(stream).len() <= stream.len(),
        skip_blanks(stream) == stream.skip(stream.len() - skip_blanks(stream).len()),
        skip_blanks(stream).len() > 0 ==> !ascii_whitespace(skip_blanks(stream).first()),
        forall|i: int|
            0 <= i < stream.len() - skip_blanks(stream).len() ==> ascii_whitespace(
                #[trigger] stream[i],
            ),
    decreases stream.len(),
{
    if stream.len() > 0 && ascii_whitespace(stream.first()) {
        let tail = stream.drop_first();
        lemma_skip_blanks(tail);
        let kept = skip_blanks(stream).len();
        assert(tail.skip(tail.len() - kept) =~= stream.skip(stream.len() - kept));
        assert forall|i: int| 0 <= i < stream.len() - kept implies ascii_whitespace(
            #[trigger] stream[i],
        ) by {
            if i > 0 {
                assert(tail[i - 1] == stream[i]);
            }
        }
    } else {
        assert(stream.skip(0) =~= stream);
    }
}

/// What a token is: the characters of `stream` up to its first whitespace
/// character, or all of them where it holds none.
pub proof fn lemma_token(stream: Seq<char>)
    ensures
        token_len(stream) <= stream.len(),
        token(stream) + after_token(stream) == stream,
        forall|i: int| 0 <= i < token_len(stream) ==> !whitespace(#[trigger] stream[i]),
        token_len(stream) < stream.len() ==> whitespace(stream[token_len(stream) as int]),
    decreases stream.len(),
{
    if stream.len() == 0 || whitespace(stream.first()) {
    } else {
        let tail = stream.drop_first();
        lemma_token(tail);
        assert forall|i: int| 0 <= i < token_len(stream) implies !whitespace(
            #[trigger] stream[i],
        ) by {
            if i > 0 {
                assert(tail[i - 1] == stream[i]);
            }
        }
        if token_len(tail) < tail.len() {
            assert(tail[token_len(tail) as int] == stream[token_len(stream) as int]);
        }
    }
    assert(token(stream) + after_token(stream) =~= stream);
}

/// The index of the first colon of `line`, or its length where it holds none.
pub open spec fn colon_index(line: Seq<char>) -> nat
    decreases line.len(),
{
    if line.len() == 0 || line.first() == ':' {
        0
    } else {
        1 + colon_index(line.drop_first())
    }
}

/// A line that holds nothing but whitespace. It ends the header block.
pub open spec fn is_blank(line: Seq<char>) -> bool {
    trim(line).len() == 0
}

/// The header that `line` holds: what stands before its first colon is the
/// name and what stands behind it the value, both trimmed. `None` where the
/// line holds no colon.
pub open spec fn field_of(line: Seq<char>) -> Option<Entry> {
    let colon = colon_index(line) as int;
    if colon < line.len() {
        Some((trim(line.take(colon)), trim(line.skip(colon + 1))))
    } else {
        None
    }
}

/// What the header block at the front of a stream holds.
pub struct HeaderBlock {
    /// The headers of the lines that were read, in stream order.
    pub fields: Seq<Entry>,
    /// Whether reading stopped at a line without a colon.
    pub malformed: bool,
    /// What follows the line at which reading stopped.
    pub rest: Seq<char>,
}

/// The header block at the front of `stream`: its lines are read up to the
/// first blank line, the end of the stream, or the first line that is
/// neither blank nor holds a colon.
pub open spec fn header_block(stream: Seq<char>) -> HeaderBlock
    decreases stream.len(),
    via header_block_decreases
{
    let line = first_line(stream);
    if is_blank(line) {
        HeaderBlock { fields: Seq::empty(), malformed: false, rest: after_line(stream) }
    } else {
        match field_of(line) {
            None => HeaderBlock {
                fields: Seq::empty(),
                malformed: true,
                rest: after_line(stream),
            },
            Some(field) => {
                let tail = header_block(after_line(stream));
                HeaderBlock {
                    fields: seq![field] + tail.fields,
                    malformed: tail.malformed,
                    rest: tail.rest,
                }
            },
        }
    }
}

#[via_fn]
proof fn header_block_decreases(stream: Seq<char>) {
    lemma_line_shrinks(stream);
}

/// A line that is not blank is not empty, so the stream behind it is shorter.
proof fn lemma_line_shrinks(stream: Seq<char>)
    ensures
        !is_blank(first_line(stream)) ==> after_line(stream).len() < stream.len(),
{
    lemma_line_bounds(stream);
    lemma_trim_ends(first_line(stream));
}

/// The index of the first entry of `entries` under `name`, or their number
/// where none has that name.
pub open spec fn name_index(entries: Seq<Entry>, name: Seq<char>) -> nat
    decreases entries.len(),
{
    if entries.len() == 0 || entries.first().0 == name {
        0
    } else {
        1 + name_index(entries.drop_first(), name)
    }
}

/// The value that `entries` hold under `name`.
pub open spec fn lookup(entries: Seq<Entry>, name: Seq<char>) -> Option<Seq<char>> {
    let at = name_index(entries, name) as int;
    if at < entries.len() {
        Some(entries[at].1)
    } else {
        None
    }
}

/// `entries` after `value` is stored under `name`: it takes the place of
/// the value that the name had, or comes last where the name is new.
pub open spec fn stored(entries: Seq<Entry>, name: Seq<char>, value: Seq<char>) -> Seq<Entry> {
    let at = name_index(entries, name) as int;
    if at < entries.len() {
        entries.update(at, (name, value))
    } else {
        entries.push((name, value))
    }
}

/// The entries that hold `fields`, stored one after the other.
pub open spec fn store_all(fields: Seq<Entry>) -> Seq<Entry>
    decreases fields.len(),
{
    if fields.len() == 0 {
        Seq::empty()
    } else {
        stored(store_all(fields.drop_last()), fields.last().0, fields.last().1)
    }
}

/// No two of `entries` have the same name.
pub open spec fn distinct_names(entries: Seq<Entry>) -> bool {
    forall|i: int, j: int|
        0 <= i < j < entries.len() ==> (#[trigger] entries[i]).0 != (#[trigger] entries[j]).0
}

/// What [`name_index`] finds: the first entry under the name.
pub proof fn lemma_name_index(entries: Seq<Entry>, name: Seq<char>)
    ensures
        name_index(entries, name) <= entries.len(),
        name_index(entries, name) < entries.len() ==> entries[name_index(entries, name) as int].0
            == name,
        forall|i: int| 0 <= i < name_index(entries, name) ==> (#[trigger] entries[i]).0 != name,
    decreases entries.len(),
{
    if entries.len() == 0 || entries.first().0 == name {
    } else {
        let tail = entries.drop_first();
        lemma_name_index(tail, name);
        assert forall|i: int| 0 <= i < name_index(entries, name) implies (#[trigger] entries[i]).0
            != name by {
            if i > 0 {
                assert(tail[i - 1] == entries[i]);
            }
        }
    }
}

/// The index of the one entry under `name`, where the names are distinct.
proof fn lemma_name_index_at(entries: Seq<Entry>, name: Seq<char>, at: int)
    requires
        0 <= at < entries.len(),
        entries[at].0 == name,
        forall|i: int| 0 <= i < at ==> (#[trigger] entries[i]).0 != name,
    ensures
        name_index(entries, name) == at,
{
    lemma_name_index(entries, name);
    let found = name_index(entries, name) as int;
    if found < at {
        assert(entries[found].0 == name);
    } else if found > at {
        assert(entries[at].0 != name);
    }
}

/// Storing is an insertion into a mapping. The stored value is what the
/// name now has, whatever it had before; every other name has what it had;
/// and distinct names stay distinct.
pub proof fn lemma_stored(entries: Seq<Entry>, name: Seq<char>, value: Seq<char>, other: Seq<char>)
    ensures
        lookup(stored(entries, name, value), name) == Some(value),
        other != name ==> lookup(stored(entries, name, value), other) == lookup(entries, other),
        distinct_names(entries) ==> distinct_names(stored(entries, name, value)),
{
    lemma_name_index(entries, name);
    lemma_name_index(entries, other);
    let at = name_index(entries, name) as int;
    let after = stored(entries, name, value);
    assert(after[at] == (name, value));
    assert forall|i: int| 0 <= i < at implies (#[trigger] after[i]).0 != name by {
        assert(after[i] == entries[i]);
    }
    lemma_name_index_at(after, name, at);
    if other != name {
        let there = name_index(entries, other) as int;
        if there < entries.len() {
            assert(after[there] == entries[there]);
            assert forall|i: int| 0 <= i < there implies (#[trigger] after[i]).0 != other by {
                if i != at {
                    assert(after[i] == entries[i]);
                }
            }
            lemma_name_index_at(after, other, there);
        } else {
            lemma_name_index(after, other);
            let found = name_index(after, other) as int;
            if found < after.len() {
                if found != at {
                    assert(after[found] == entries[found]);
                }
            }
        }
    }
    if distinct_names(entries) {
        assert forall|i: int, j: int| 0 <= i < j < after.len() implies (#[trigger] after[i]).0 != (
        #[trigger] after[j]).0 by {
            if at < entries.len() {
                if i != at {
                    assert(after[i] == entries[i]);
                }
                if j != at {
                    assert(after[j] == entries[j]);
                }
                assert(entries[i].0 != entries[j].0);
                assert(entries[at].0 == name);
            } else {
                if j < entries.len() {
                    assert(after[i] == entries[i]);
                    assert(after[j] == entries[j]);
                } else {
                    assert(after[i] == entries[i]);
                }
            }
        }
    }
}

/// The entries that hold a header block have distinct names.
pub proof fn lemma_store_all_distinct(fields: Seq<Entry>)
    ensures
        distinct_names(store_all(fields)),
    decreases fields.len(),
{
    if fields.len() > 0 {
        lemma_store_all_distinct(fields.drop_last());
        lemma_stored(
            store_all(fields.drop_last()),
            fields.last().0,
            fields.last().1,
            fields.last().0,
        );
    }
}

/// The last write wins: where a header block names a header more than
/// once, the name has the value of the last line that names it.
pub proof fn lemma_last_write_wins(fields: Seq<Entry>, at: int)
    requires
        0 <= at < fields.len(),
        forall|later: int| at < later < fields.len() ==> (#[trigger] fields[later]).0 != fields[at].0,
    ensures
        lookup(store_all(fields), fields[at].0) == Some(fields[at].1),
    decreases fields.len(),
{
    let earlier = fields.drop_last();
    lemma_stored(store_all(earlier), fields.last().0, fields.last().1, fields[at].0);
    if at < fields.len() - 1 {
        assert(fields[fields.len() - 1].0 != fields[at].0);
        assert(earlier[at] == fields[at]);
        assert forall|later: int| at < later < earlier.len() implies (#[trigger] earlier[later]).0
            != earlier[at].0 by {
            assert(earlier[later] == fields[later]);
        }
        lemma_last_write_wins(earlier, at);
    }
}

/// A name has a value exactly where a line of the header block names it.
pub proof fn lemma_lookup_some(fields: Seq<Entry>, name: Seq<char>)
    ensures
        lookup(store_all(fields), name) is Some <==> exists|i: int|
            0 <= i < fields.len() && (#[trigger] fields[i]).0 == name,
    decreases fields.len(),
{
    if fields.len() > 0 {
        let earlier = fields.drop_last();
        lemma_lookup_some(earlier, name);
        lemma_stored(store_all(earlier), fields.last().0, fields.last().1, name);
        if fields.last().0 == name {
            assert(fields[fields.len() - 1].0 == name);
        } else if lookup(store_all(earlier), name) is Some {
            let i = choose|i: int| 0 <= i < earlier.len() && (#[trigger] earlier[i]).0 == name;
            assert(fields[i] == earlier[i]);
        } else {
            assert forall|i: int| 0 <= i < fields.len() implies (#[trigger] fields[i]).0
                != name by {
                if i < earlier.len() {
                    assert(earlier[i] == fields[i]);
                }
            }
        }
    } else {
        lemma_name_index(store_all(fields), name);
    }
}

/// The mapping from name to value that `entries` stand for.
pub open spec fn mapping(entries: Seq<Entry>) -> Map<Seq<char>, Seq<char>> {
    Map::new(
        |name: Seq<char>| lookup(entries, name) is Some,
        |name: Seq<char>| lookup(entries, name)->0,
    )
}

/// Storing a value under a name inserts the pair into the mapping: a value
/// that the name had is overwritten.
pub proof fn lemma_stored_inserts(entries: Seq<Entry>, name: Seq<char>, value: Seq<char>)
    ensures
        mapping(stored(entries, name, value)) == mapping(entries).insert(name, value),
{
    let after = mapping(stored(entries, name, value));
    let inserted = mapping(entries).insert(name, value);
    assert forall|other: Seq<char>| #[trigger]
        after.dom().contains(other) <==> inserted.dom().contains(other) by {
        lemma_stored(entries, name, value, other);
    }
    assert forall|other: Seq<char>| after.dom().contains(other) implies #[trigger] after[other]
        == inserted[other] by {
        lemma_stored(entries, name, value, other);
    }
    assert(after =~= inserted);
}

/// The text of the header lines of `headers`, each as `Name: Value` with a
/// line feed behind it.
pub open spec fn header_lines(headers: Seq<Entry>) -> Seq<char>
    decreases headers.len(),
{
    if headers.len() == 0 {
        Seq::empty()
    } else {
        header_lines(headers.drop_last()) + headers.last().0 + seq![':', ' '] + headers.last().1
            + seq!['\n']
    }
}

/// What a request holds.
pub struct RequestModel {
    /// The first token of the request line.
    pub method: Seq<char>,
    /// The second token of the request line: the target of the request.
    pub path: Seq<char>,
    /// The third token of the request line: the protocol version.
    pub version: Seq<char>,
    /// The headers, each name once, in the order in which the names first came.
    pub headers: Seq<Entry>,
    /// The text behind the header block.
    pub body: Seq<char>,
}

impl RequestModel {
    /// The headers as a mapping from name to value.
    pub open spec fn header_map(self) -> Map<Seq<char>, Seq<char>> {
        mapping(self.headers)
    }

    /// The request as text: the request line, the header lines, the body.
    pub open spec fn render(self) -> Seq<char> {
        self.method + seq![' '] + self.path + seq![' '] + self.version + seq!['\n'] + header_lines(
            self.headers,
        ) + self.body
    }
}

/// What parsing makes of a stream.
pub struct Parsed {
    /// The request that the stream holds, or why it holds none.
    pub outcome: Result<RequestModel, ParseError>,
    /// What parsing leaves of the stream.
    pub rest: Seq<char>,
}

/// The request that `stream` holds.
///
/// Whitespace before each token of the request line and behind the last is
/// skipped; then comes the header block, of which each name keeps the value
/// of the last line that names it; the body is what follows the blank line,
/// less the whitespace at its front. A header line without a colon makes
/// the stream malformed, and parsing stops behind that line.
pub open spec fn parse(stream: Seq<char>) -> Parsed {
    let at_method = skip_blanks(stream);
    let at_path = skip_blanks(after_token(at_method));
    let at_version = skip_blanks(after_token(at_path));
    let block = header_block(skip_blanks(after_token(at_version)));
    if block.malformed {
        Parsed { outcome: Err(ParseError::MissingColon), rest: block.rest }
    } else {
        Parsed {
            outcome: Ok(
                RequestModel {
                    method: token(at_method),
                    path: token(at_path),
                    version: token(at_version),
                    headers: store_all(block.fields),
                    body: skip_blanks(block.rest),
                },
            ),
            rest: Seq::empty(),
        }
    }
}

/// A request that was parsed names each of its headers once.
pub proof fn lemma_parsed_names_once(stream: Seq<char>)
    ensures
        parse(stream).outcome matches Ok(request) ==> distinct_names(request.headers),
{
    let at_method = skip_blanks(stream);
    let at_path = skip_blanks(after_token(at_method));
    let at_version = skip_blanks(after_token(at_path));
    lemma_store_all_distinct(header_block(skip_blanks(after_token(at_version))).fields);
}

/// The names and values that a vector of headers holds.
pub open spec fn entries_of(headers: Seq<(String, String)>) -> Seq<Entry> {
    Seq::new(headers.len(), |i: int| (headers[i].0@, headers[i].1@))
}

/// A parsed request.
#[derive(Debug)]
pub struct Request {
    method: String,
    path: String,
    version: String,
    headers: Vec<(String, String)>,
    body: String,
}

impl View for Request {
    type V = RequestModel;

    closed spec fn view(&self) -> RequestModel {
        RequestModel {
            method: self.method@,
            path: self.path@,
            version: self.version@,
            headers: entries_of(self.headers@),
            body: self.body@,
        }
    }
}

impl Request {
    /// No name stands twice among the headers.
    #[verifier::type_invariant]
    spec fn names_once(self) -> bool {
        distinct_names(entries_of(self.headers@))
    }

    /// The method of the request.
    pub fn method(&self) -> (method: &str)
        ensures
            method@ == self@.method,
    {
        self.method.as_str()
    }

    /// The target of the request.
    pub fn path(&self) -> (path: &str)
        ensures
            path@ == self@.path,
    {
        self.path.as_str()
    }

    /// The protocol version of the request.
    pub fn version(&self) -> (version: &str)
        ensures
            version@ == self@.version,
    {
        self.version.as_str()
    }

    /// The body of the request.
    pub fn body(&self) -> (body: &str)
        ensures
            body@ == self@.body,
    {
        self.body.as_str()
    }

    /// The number of headers of the request. Each has a name of its own.
    pub fn header_count(&self) -> (count: usize)
        ensures
            count == self@.headers.len(),
            distinct_names(self@.headers),
    {
        proof {
            use_type_invariant(self);
        }
        self.headers.len()
    }

    /// The value of the header `name`, if the request has that header.
    /// Names are compared character by character.
    pub fn header(&self, name: &str) -> (value: Option<&str>)
        ensures
            match value {
                Some(text) => self@.header_map().contains_pair(name@, text@),
                None => !self@.header_map().contains_key(name@),
            },
    {
        let wanted = name.to_owned();
        let ghost entries = entries_of(self.headers@);
        let mut i: usize = 0;
        proof {
            assert(entries.skip(0) =~= entries);
        }
        while i < self.headers.len()
            invariant
                i <= self.headers@.len(),
                entries == entries_of(self.headers@),
                wanted@ == name@,
                name_index(entries, name@) == i + name_index(entries.skip(i as int), name@),
            decreases self.headers@.len() - i,
        {
            proof {
                assert(entries.skip(i as int).first() == entries[i as int]);
                assert(entries.skip(i as int).drop_first() =~= entries.skip(i + 1));
            }
            if self.headers[i].0 == wanted {
                return Some(self.headers[i].1.as_str());
            }
            i = i + 1;
        }
        None
    }

    /// The request as text: the request line, then each header on a line
    /// of its own, then the body, with nothing added behind it.
    pub fn to_string(&self) -> (text: String)
        ensures
            text@ == self@.render(),
            distinct_names(self@.headers),
    {
        proof {
            use_type_invariant(self);
        }
        let mut text = String::new();
        text.append(self.method.as_str());
        push_char(&mut text, ' ');
        text.append(self.path.as_str());
        push_char(&mut text, ' ');
        text.append(self.version.as_str());
        push_char(&mut text, '\n');
        let ghost line = text@;
        let ghost entries = entries_of(self.headers@);
        let mut i: usize = 0;
        proof {
            assert(line =~= self@.method + seq![' '] + self@.path + seq![' '] + self@.version
                + seq!['\n']);
            assert(entries.take(0) =~= Seq::<Entry>::empty());
            assert(line + header_lines(entries.take(0)) =~= line);
        }
        while i < self.headers.len()
            invariant
                i <= self.headers@.len(),
                entries == entries_of(self.headers@),
                text@ == line + header_lines(entries.take(i as int)),
            decreases self.headers@.len() - i,
        {
            let ghost before = text@;
            text.append(self.headers[i].0.as_str());
            push_char(&mut text, ':');
            push_char(&mut text, ' ');
            text.append(self.headers[i].1.as_str());
            push_char(&mut text, '\n');
            proof {
                let upto = entries.take(i + 1);
                assert(upto.drop_last() =~= entries.take(i as int));
                assert(upto.last() == entries[i as int]);
                assert(text@ =~= before + entries[i as int].0 + seq![':', ' '] + entries[i as int].1
                    + seq!['\n']);
                assert(text@ =~= line + header_lines(upto));
            }
            i = i + 1;
        }
        proof {
            assert(entries.take(entries.len() as int) =~= entries);
        }
        text.append(self.body.as_str());
        text
    }
}

/// Stores `value` under `name` in `headers`.
fn store(headers: &mut Vec<(String, String)>, name: String, value: String)
    ensures
        entries_of(final(headers)@) == stored(entries_of(old(headers)@), name@, value@),
{
    let ghost entries = entries_of(headers@);
    let mut i: usize = 0;
    proof {
        assert(entries.skip(0) =~= entries);
    }
    while i < headers.len()
        invariant
            i <= headers@.len(),
            headers@ == old(headers)@,
            entries == entries_of(headers@),
            name_index(entries, name@) == i + name_index(entries.skip(i as int), name@),
        decreases headers@.len() - i,
    {
        proof {
            assert(entries.skip(i as int).first() == entries[i as int]);
            assert(entries.skip(i as int).drop_first() =~= entries.skip(i + 1));
        }
        if headers[i].0 == name {
            headers[i] = (name, value);
            proof {
                assert(entries_of(headers@) =~= entries.update(i as int, (name@, value@)));
            }
            return;
        }
        i = i + 1;
    }
    headers.push((name, value));
    proof {
        assert(entries_of(headers@) =~= entries.push((name@, value@)));
    }
}

/// The index of the first colon of `line`, or its length where it holds none.
fn find_colon(line: &[char]) -> (at: usize)
    ensures
        at == colon_index(line@),
        at <= line@.len(),
{
    let mut i: usize = 0;
    proof {
        assert(line@.skip(0) =~= line@);
    }
    while i < line.len() && line[i] != ':'
        invariant
            i <= line@.len(),
            colon_index(line@) == i + colon_index(line@.skip(i as int)),
        decreases line@.len() - i,
    {
        proof {
            assert(line@.skip(i as int).drop_first() =~= line@.skip(i + 1));
        }
        i = i + 1;
    }
    i
}

/// The trimmed text of `text`.
fn trimmed(text: &[char]) -> (out: String)
    ensures
        out@ == trim(text@),
{
    let (start, end) = trim_bounds(text);
    string_of(slice_subrange(text, start, end))
}

/// The header that `line` holds, if it holds a colon.
pub fn split_field(line: &[char]) -> (field: Option<(String, String)>)
    ensures
        match field {
            Some((name, value)) => field_of(line@) == Some((name@, value@)),
            None => field_of(line@) is None,
        },
{
    let colon = find_colon(line);
    if colon < line.len() {
        let name = trimmed(slice_subrange(line, 0, colon));
        let value = trimmed(slice_subrange(line, colon + 1, line.len()));
        Some((name, value))
    } else {
        None
    }
}

/// A parser of one request from a reader.
pub struct SipParser<'a> {
    reader: TextReader<'a>,
}

impl<'a> View for SipParser<'a> {
    type V = Seq<char>;

    /// The text that the parser has yet to read.
    closed spec fn view(&self) -> Seq<char> {
        self.reader@
    }
}

impl<'a> SipParser<'a> {
    /// The reader of the parser is well formed.
    pub closed spec fn well_formed(&self) -> bool {
        self.reader.well_formed()
    }

    /// A parser of what `reader` has yet to hand out.
    pub fn new(reader: TextReader<'a>) -> (parser: SipParser<'a>)
        requires
            reader.well_formed(),
        ensures
            parser.well_formed(),
            parser@ == reader@,
    {
        SipParser { reader }
    }

    /// Reads the request that the stream holds.
    ///
    /// The stream must hold one: a header line without a colon is not
    /// recovered from. [`SipParser::try_parse_request`] reads a stream of
    /// which this is not known.
    pub fn parse_request(&mut self) -> (request: Request)
        requires
            old(self).well_formed(),
            parse(old(self)@).outcome is Ok,
        ensures
            final(self).well_formed(),
            parse(old(self)@).outcome == Ok::<RequestModel, ParseError>(request@),
            final(self)@ == parse(old(self)@).rest,
    {
        match self.try_parse_request() {
            Ok(request) => request,
            Err(_) => vstd::pervasive::unreached(),
        }
    }

    /// Reads the request that the stream holds, or finds the header line
    /// that holds no colon and stops behind it.
    pub fn try_parse_request(&mut self) -> (outcome: Result<Request, ParseError>)
        requires
            old(self).well_formed(),
        ensures
            final(self).well_formed(),
            final(self)@ == parse(old(self)@).rest,
            match outcome {
                Ok(request) => parse(old(self)@).outcome == Ok::<RequestModel, ParseError>(
                    request@,
                ),
                Err(error) => parse(old(self)@).outcome == Err::<RequestModel, ParseError>(error),
            },
    {
        self.consume_whitespace();
        let method = self.consume_token();
        self.consume_whitespace();
        let path = self.consume_token();
        self.consume_whitespace();
        let version = self.consume_token();
        self.consume_whitespace();
        let headers = match self.parse_headers() {
            Ok(headers) => headers,
            Err(error) => {
                return Err(error);
            },
        };
        self.consume_whitespace();
        let body = self.parse_body();
        proof {
            lemma_parsed_names_once(old(self)@);
        }
        Ok(Request { method, path, version, headers, body })
    }

    /// Reads the header block at the front of the stream.
    fn parse_headers(&mut self) -> (outcome: Result<Vec<(String, String)>, ParseError>)
        requires
            old(self).well_formed(),
        ensures
            final(self).well_formed(),
            final(self)@ == header_block(old(self)@).rest,
            match outcome {
                Ok(headers) => !header_block(old(self)@).malformed && entries_of(headers@)
                    == store_all(header_block(old(self)@).fields),
                Err(error) => header_block(old(self)@).malformed && error
                    == ParseError::MissingColon,
            },
    {
        let ghost start = self@;
        let ghost mut read: Seq<Entry> = Seq::empty();
        let mut headers: Vec<(String, String)> = Vec::new();
        proof {
            assert(read + header_block(start).fields =~= header_block(start).fields);
            assert(entries_of(headers@) =~= store_all(read));
        }
        loop
            invariant
                self.well_formed(),
                start == old(self)@,
                header_block(start).fields == read + header_block(self@).fields,
                header_block(start).malformed == header_block(self@).malformed,
                header_block(start).rest == header_block(self@).rest,
                entries_of(headers@) == store_all(read),
            decreases self@.len(),
        {
            let ghost here = self@;
            let line = self.reader.line_chars();
            let (start_of_text, end_of_text) = trim_bounds(line.as_slice());
            if start_of_text == end_of_text {
                proof {
                    assert(read + Seq::<Entry>::empty() =~= read);
                }
                return Ok(headers);
            }
            proof {
                lemma_line_shrinks(here);
            }
            match split_field(line.as_slice()) {
                None => {
                    return Err(ParseError::MissingColon);
                },
                Some((name, value)) => {
                    proof {
                        let field = (name@, value@);
                        let longer = read.push(field);
                        assert(longer.drop_last() =~= read);
                        assert(read + (seq![field] + header_block(self@).fields) =~= longer
                            + header_block(self@).fields);
                        read = longer;
                    }
                    store(&mut headers, name, value);
                },
            }
        }
    }

    /// Reads what is left of the stream.
    fn parse_body(&mut self) -> (body: String)
        requires
            old(self).well_formed(),
        ensures
            final(self).well_formed(),
            body@ == old(self)@,
            final(self)@ == Seq::<char>::empty(),
    {
        let body = self.reader.read_to_end();
        proof {
            assert(self@ =~= Seq::<char>::empty());
        }
        body
    }

    /// Skips the ASCII whitespace at the front of the stream.
    fn consume_whitespace(&mut self)
        requires
            old(self).well_formed(),
        ensures
            final(self).well_formed(),
            final(self)@ == skip_blanks(old(self)@),
    {
        loop
            invariant
                self.well_formed(),
                skip_blanks(self@) == skip_blanks(old(self)@),
            ensures
                self.well_formed(),
                self@ == skip_blanks(old(self)@),
            decreases self@.len(),
        {
            match self.reader.peek_char() {
                None => {
                    break;
                },
                Some(c) => {
                    if !is_ascii_whitespace(c) {
                        break;
                    }
                },
            }
            let _ = self.reader.next_char();
        }
    }

    /// Takes the token at the front of the stream.
    fn consume_token(&mut self) -> (text: String)
        requires
            old(self).well_formed(),
        ensures
            final(self).well_formed(),
            text@ == token(old(self)@),
            final(self)@ == after_token(old(self)@),
    {
        let ghost start = self@;
        let mut text = String::new();
        proof {
            assert(start.skip(0) =~= start);
            assert(start.take(0) =~= Seq::<char>::empty());
        }
        loop
            invariant
                self.well_formed(),
                text@.len() + token_len(self@) == token_len(start),
                text@.len() <= start.len(),
                text@ == start.take(text@.len() as int),
                self@ == start.skip(text@.len() as int),
            ensures
                self.well_formed(),
                text@ == token(start),
                self@ == after_token(start),
            decreases self@.len(),
        {
            let c = match self.reader.peek_char() {
                None => {
                    break;
                },
                Some(c) => c,
            };
            if is_whitespace(c) {
                break;
            }
            let _ = self.reader.next_char();
            proof {
                assert(start.take(text@.len() as int).push(c) =~= start.take(text@.len() as int + 1));
                assert(self@ =~= start.skip(text@.len() as int + 1));
            }
            push_char(&mut text, c);
        }
        text
    }
}

/// Reads the request that `bytes` hold when they are decoded as UTF-8.
pub fn parse_bytes(bytes: &[u8]) -> (outcome: Result<Request, ParseError>)
    ensures
        match outcome {
            Ok(request) => parse(text_of(bytes@)).outcome == Ok::<RequestModel, ParseError>(
                request@,
            ),
            Err(error) => parse(text_of(bytes@)).outcome == Err::<RequestModel, ParseError>(error),
        },
{
    let mut parser = SipParser::new(TextReader::from_bytes(bytes));
    parser.try_parse_request()
}

/// Reads the request that `text` holds.
pub fn parse_text(text: &str) -> (outcome: Result<Request, ParseError>)
    ensures
        match outcome {
            Ok(request) => parse(text@).outcome == Ok::<RequestModel, ParseError>(request@),
            Err(error) => parse(text@).outcome == Err::<RequestModel, ParseError>(error),
        },
{
    proof {
        lemma_round_trip(text@);
    }
    parse_bytes(text.as_bytes())
}

} // verus!
