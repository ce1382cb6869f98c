//! The message model: a header map and a body.

use vstd::prelude::*;
use vstd::string::*;
use crate::text::first_where;
use crate::text::is_space_byte;
use crate::text::is_white_space_char;
use crate::text::lemma_space_below_128;
use crate::text::lemma_first_where_is;
use crate::text::length_value;
use crate::text::parse_length;
use crate::text::str_eq;
use crate::text::white_space;

verus! {

/// Header name under which a nested body is also stored.
pub const RAW_BODY: &'static str = "_body";

/// Header name that carries the event name.
pub const EVENT_NAME: &'static str = "Event-Name";

/// Header name that gives the payload length in bytes.
pub const CONTENT_LENGTH: &'static str = "Content-Length";

/// Header name that says how the payload is encoded.
pub const CONTENT_TYPE: &'static str = "Content-Type";

/// Header name that ties a message to a background job.
pub const JOB_UUID: &'static str = "Job-UUID";

/// The map that a list of pairs stands for: later pairs override earlier
/// ones with the same key.
pub open spec fn pairs_map(pairs: Seq<(String, String)>) -> Map<Seq<char>, Seq<char>>
    decreases pairs.len(),
{
    if pairs.len() == 0 {
        Map::empty()
    } else {
        pairs_map(pairs.drop_last()).insert(pairs.last().0@, pairs.last().1@)
    }
}

/// No key occurs twice in the list.
pub open spec fn distinct_keys(pairs: Seq<(String, String)>) -> bool {
    forall|i: int, j: int| 0 <= i < j < pairs.len() ==> pairs[i].0@ != pairs[j].0@
}

/// A key is in the map exactly when some pair carries it.
pub proof fn lemma_pairs_map_domain(pairs: Seq<(String, String)>, key: Seq<char>)
    ensures
        pairs_map(pairs).contains_key(key) <==> exists|i: int|
            0 <= i < pairs.len() && #[trigger] pairs[i].0@ == key,
    decreases pairs.len(),
{
    if pairs.len() > 0 {
        let front = pairs.drop_last();
        lemma_pairs_map_domain(front, key);
        if pairs_map(pairs).contains_key(key) {
            if pairs.last().0@ == key {
                assert(pairs[pairs.len() - 1].0@ == key);
            } else {
                let i = choose|i: int| 0 <= i < front.len() && #[trigger] front[i].0@ == key;
                assert(pairs[i].0@ == key);
            }
        }
        if exists|i: int| 0 <= i < pairs.len() && #[trigger] pairs[i].0@ == key {
            let i = choose|i: int| 0 <= i < pairs.len() && #[trigger] pairs[i].0@ == key;
            if i < front.len() {
                assert(front[i].0@ == key);
            }
        }
    }
}

/// The map gives a key the value of the last pair that carries it.
pub proof fn lemma_pairs_map_value(pairs: Seq<(String, String)>, i: int)
    requires
        0 <= i < pairs.len(),
        forall|j: int| i < j < pairs.len() ==> pairs[j].0@ != pairs[i].0@,
    ensures
        pairs_map(pairs).contains_key(pairs[i].0@),
        pairs_map(pairs)[pairs[i].0@] == pairs[i].1@,
    decreases pairs.len(),
{
    if i < pairs.len() - 1 {
        let front = pairs.drop_last();
        assert(front[i] == pairs[i]);
        assert forall|j: int| i < j < front.len() implies front[j].0@ != front[i].0@ by {
            assert(front[j] == pairs[j]);
        }
        lemma_pairs_map_value(front, i);
    }
}

/// With distinct keys the map has as many keys as the list has pairs.
pub proof fn lemma_pairs_map_len(pairs: Seq<(String, String)>)
    requires
        distinct_keys(pairs),
    ensures
        pairs_map(pairs).dom().finite(),
        pairs_map(pairs).dom().len() == pairs.len(),
    decreases pairs.len(),
{
    if pairs.len() > 0 {
        let front = pairs.drop_last();
        assert(distinct_keys(front)) by {
            assert forall|i: int, j: int| 0 <= i < j < front.len() implies front[i].0@
                != front[j].0@ by {
                assert(front[i] == pairs[i]);
                assert(front[j] == pairs[j]);
            }
        }
        lemma_pairs_map_len(front);
        lemma_pairs_map_domain(front, pairs.last().0@);
        if exists|i: int| 0 <= i < front.len() && #[trigger] front[i].0@ == pairs.last().0@ {
            let i = choose|i: int| 0 <= i < front.len() && #[trigger] front[i].0@ == pairs.last().0@;
            assert(front[i] == pairs[i]);
            assert(pairs[i].0@ != pairs[pairs.len() - 1].0@);
        }
        assert(pairs_map(pairs).dom() =~= pairs_map(front).dom().insert(pairs.last().0@));
    }
}

/// Replacing the pair that carries a key changes the map like an insert.
proof fn lemma_pairs_map_update(pairs: Seq<(String, String)>, i: int, entry: (String, String))
    requires
        distinct_keys(pairs),
        0 <= i < pairs.len(),
        pairs[i].0@ == entry.0@,
    ensures
        pairs_map(pairs.update(i, entry)) == pairs_map(pairs).insert(entry.0@, entry.1@),
        distinct_keys(pairs.update(i, entry)),
    decreases pairs.len(),
{
    let changed = pairs.update(i, entry);
    let front = pairs.drop_last();
    assert(distinct_keys(changed)) by {
        assert forall|a: int, b: int| 0 <= a < b < changed.len() implies changed[a].0@
            != changed[b].0@ by {
            assert(pairs[a].0@ != pairs[b].0@);
        }
    }
    if i == pairs.len() - 1 {
        assert(changed.drop_last() =~= front);
        assert(pairs_map(changed) =~= pairs_map(pairs).insert(entry.0@, entry.1@));
    } else {
        assert(distinct_keys(front)) by {
            assert forall|a: int, b: int| 0 <= a < b < front.len() implies front[a].0@
                != front[b].0@ by {
                assert(front[a] == pairs[a]);
                assert(front[b] == pairs[b]);
            }
        }
        assert(front[i] == pairs[i]);
        lemma_pairs_map_update(front, i, entry);
        assert(changed.drop_last() =~= front.update(i, entry));
        assert(changed.last() == pairs.last());
        assert(pairs[i].0@ != pairs[pairs.len() - 1].0@);
        assert(pairs_map(changed) =~= pairs_map(pairs).insert(entry.0@, entry.1@));
    }
}

/// A string-keyed header map. Keys are case-sensitive, a later insert of a
/// key replaces the earlier value, and the order of inserts is not kept as
/// part of the value.
///
/// The pairs are kept in a vector in which no key occurs twice. Of a hash
/// map keyed by `String` nothing can be proved here, not even that it holds
/// what was put into it.
#[derive(Debug)]
pub struct Headers {
    entries: Vec<(String, String)>,
}

impl View for Headers {
    type V = Map<Seq<char>, Seq<char>>;

    closed spec fn view(&self) -> Map<Seq<char>, Seq<char>> {
        pairs_map(self.entries@)
    }
}

impl Headers {
    #[verifier::type_invariant]
    spec fn keys_are_distinct(self) -> bool {
        distinct_keys(self.entries@)
    }

    /// An empty map.
    pub fn new() -> (headers: Headers)
        ensures
            headers@ == Map::<Seq<char>, Seq<char>>::empty(),
    {
        Headers { entries: Vec::new() }
    }

    /// The number of keys.
    pub fn len(&self) -> (count: usize)
        ensures
            self@.dom().finite(),
            count == self@.dom().len(),
    {
        proof {
            use_type_invariant(self);
            lemma_pairs_map_len(self.entries@);
        }
        self.entries.len()
    }

    /// Whether the map has no key.
    pub fn is_empty(&self) -> (empty: bool)
        ensures
            empty == (self@ == Map::<Seq<char>, Seq<char>>::empty()),
    {
        proof {
            use_type_invariant(self);
            lemma_pairs_map_len(self.entries@);
            if self.entries@.len() == 0 {
                assert(self@ =~= Map::<Seq<char>, Seq<char>>::empty());
            }
        }
        self.entries.len() == 0
    }

    /// The position of the pair that carries `key`, or the number of pairs
    /// when none does.
    fn position(entries: &Vec<(String, String)>, key: &str) -> (at: usize)
        ensures
            at <= entries.len(),
            at < entries.len() ==> entries[at as int].0@ == key@,
            forall|j: int| 0 <= j < at ==> entries[j].0@ != key@,
    {
        let mut i: usize = 0;
        while i < entries.len()
            invariant
                i <= entries.len(),
                forall|j: int| 0 <= j < i ==> entries[j].0@ != key@,
            decreases entries.len() - i,
        {
            if str_eq(entries[i].0.as_str(), key) {
                return i;
            }
            i += 1;
        }
        i
    }

    /// Whether `key` has a value.
    pub fn contains_key(&self, key: &str) -> (present: bool)
        ensures
            present == self@.contains_key(key@),
    {
        let at = Self::position(&self.entries, key);
        proof {
            lemma_pairs_map_domain(self.entries@, key@);
        }
        at < self.entries.len()
    }

    /// The value of `key`, if it has one.
    pub fn get(&self, key: &str) -> (found: Option<&str>)
        ensures
            match found {
                Some(value) => self@.contains_key(key@) && value@ == self@[key@],
                None => !self@.contains_key(key@),
            },
    {
        let at = Self::position(&self.entries, key);
        if at < self.entries.len() {
            proof {
                use_type_invariant(self);
                lemma_pairs_map_value(self.entries@, at as int);
            }
            Some(self.entries[at].1.as_str())
        } else {
            proof {
                lemma_pairs_map_domain(self.entries@, key@);
            }
            None
        }
    }

    /// Gives `key` the value `value`, replacing an earlier value.
    pub fn insert(&mut self, key: String, value: String)
        ensures
            final(self)@ == old(self)@.insert(key@, value@),
    {
        proof {
            use_type_invariant(&*self);
        }
        let mut entries: Vec<(String, String)> = Vec::new();
        std::mem::swap(&mut entries, &mut self.entries);
        let at = Self::position(&entries, key.as_str());
        if at < entries.len() {
            proof {
                lemma_pairs_map_update(entries@, at as int, (key, value));
            }
            entries.set(at, (key, value));
        } else {
            proof {
                let grown = entries@.push((key, value));
                assert(grown.drop_last() =~= entries@);
                assert(distinct_keys(grown));
            }
            entries.push((key, value));
        }
        self.entries = entries;
    }

    /// The map that a list of pairs stands for; of two pairs with one key
    /// the later one counts.
    pub fn from_pairs(pairs: Vec<(String, String)>) -> (headers: Headers)
        ensures
            headers@ == pairs_map(pairs@),
    {
        let mut headers = Headers::new();
        let mut i: usize = 0;
        while i < pairs.len()
            invariant
                i <= pairs.len(),
                headers@ == pairs_map(pairs@.take(i as int)),
            decreases pairs.len() - i,
        {
            proof {
                assert(pairs@.take(i + 1).drop_last() =~= pairs@.take(i as int));
            }
            headers.insert(pairs[i].0.clone(), pairs[i].1.clone());
            i += 1;
        }
        proof {
            assert(pairs@.take(pairs.len() as int) =~= pairs@);
        }
        headers
    }

    /// The pairs of the map, one for each key, in no particular order.
    pub fn to_pairs(&self) -> (pairs: Vec<(String, String)>)
        ensures
            pairs_map(pairs@) == self@,
            distinct_keys(pairs@),
    {
        proof {
            use_type_invariant(self);
        }
        let mut pairs: Vec<(String, String)> = Vec::new();
        let mut i: usize = 0;
        while i < self.entries.len()
            invariant
                i <= self.entries.len(),
                pairs@.len() == i,
                forall|j: int|
                    0 <= j < i ==> pairs@[j].0@ == self.entries@[j].0@ && pairs@[j].1@
                        == self.entries@[j].1@,
            decreases self.entries.len() - i,
        {
            pairs.push((self.entries[i].0.clone(), self.entries[i].1.clone()));
            i += 1;
        }
        proof {
            lemma_pairs_map_same(pairs@, self.entries@);
        }
        pairs
    }
}

/// Two lists with the same keys and values at each place stand for one map.
proof fn lemma_pairs_map_same(a: Seq<(String, String)>, b: Seq<(String, String)>)
    requires
        a.len() == b.len(),
        forall|j: int| 0 <= j < a.len() ==> a[j].0@ == b[j].0@ && a[j].1@ == b[j].1@,
    ensures
        pairs_map(a) == pairs_map(b),
        distinct_keys(b) ==> distinct_keys(a),
    decreases a.len(),
{
    if a.len() > 0 {
        lemma_pairs_map_same(a.drop_last(), b.drop_last());
    }
}

impl Clone for Headers {
    fn clone(&self) -> (copy: Headers)
        ensures
            copy@ == self@,
    {
        proof {
            use_type_invariant(self);
        }
        Headers { entries: self.to_pairs() }
    }
}

impl Default for Headers {
    fn default() -> (headers: Headers)
        ensures
            headers@ == Map::<Seq<char>, Seq<char>>::empty(),
    {
        Headers::new()
    }
}

/// A message as a value: its header map and its body.
pub struct EventView {
    pub header: Map<Seq<char>, Seq<char>>,
    pub body: Seq<char>,
}

/// One decoded message: a header map and a body.
#[derive(Debug)]
pub struct Event {
    pub header: Headers,
    pub body: String,
}

impl View for Event {
    type V = EventView;

    open spec fn view(&self) -> EventView {
        EventView { header: self.header@, body: self.body@ }
    }
}

impl Event {
    /// A message without headers and with an empty body.
    pub fn new() -> (event: Event)
        ensures
            event@.header == Map::<Seq<char>, Seq<char>>::empty(),
            event@.body == Seq::<char>::empty(),
    {
        Event { header: Headers::new(), body: String::new() }
    }

    /// The header map.
    pub fn header(&self) -> (headers: &Headers)
        ensures
            headers@ == self@.header,
    {
        &self.header
    }

    /// The body.
    pub fn get_body(&self) -> (body: &str)
        ensures
            body@ == self@.body,
    {
        self.body.as_str()
    }

    /// The value of the header `key`, if the message has it.
    pub fn get_header(&self, key: &str) -> (found: Option<&str>)
        ensures
            match found {
                Some(value) => self@.header.contains_key(key@) && value@ == self@.header[key@],
                None => !self@.header.contains_key(key@),
            },
    {
        self.header.get(key)
    }

    /// The event's name: the value of the `Event-Name` header.
    pub fn get_type(&self) -> (found: Option<&str>)
        ensures
            match found {
                Some(value) => self@.header.contains_key(EVENT_NAME@) && value@
                    == self@.header[EVENT_NAME@],
                None => !self@.header.contains_key(EVENT_NAME@),
            },
    {
        self.header.get(EVENT_NAME)
    }

    /// The job that this message belongs to: the value of the `Job-UUID`
    /// header.
    pub fn job_uuid(&self) -> (found: Option<&str>)
        ensures
            match found {
                Some(value) => self@.header.contains_key(JOB_UUID@) && value@
                    == self@.header[JOB_UUID@],
                None => !self@.header.contains_key(JOB_UUID@),
            },
    {
        self.header.get(JOB_UUID)
    }

    /// The declared encoding of the payload: the value of the
    /// `Content-Type` header.
    pub fn content_type(&self) -> (found: Option<&str>)
        ensures
            match found {
                Some(value) => self@.header.contains_key(CONTENT_TYPE@) && value@
                    == self@.header[CONTENT_TYPE@],
                None => !self@.header.contains_key(CONTENT_TYPE@),
            },
    {
        self.header.get(CONTENT_TYPE)
    }

    /// The announced length of the payload: the number that the
    /// `Content-Length` header writes. There is none when the header is
    /// missing or writes no length.
    pub fn content_length(&self) -> (found: Option<usize>)
        ensures
            match found {
                Some(n) => self@.header.contains_key(CONTENT_LENGTH@) && length_value(
                    self@.header[CONTENT_LENGTH@],
                ) == Some(n as nat),
                None => !self@.header.contains_key(CONTENT_LENGTH@) || length_value(
                    self@.header[CONTENT_LENGTH@],
                ) is None,
            },
    {
        match self.header.get(CONTENT_LENGTH) {
            Some(text) => parse_length(text),
            None => None,
        }
    }

    /// Sets the header `key` to `val`, replacing an earlier value.
    pub fn add_header(&mut self, key: &str, val: &str)
        ensures
            final(self)@.header == old(self)@.header.insert(key@, val@),
            final(self)@.body == old(self)@.body,
    {
        self.header.insert(key.to_owned(), val.to_owned());
    }

    /// Replaces the body.
    pub fn add_body(&mut self, body: &str)
        ensures
            final(self)@.body == body@,
            final(self)@.header == old(self)@.header,
    {
        self.body = body.to_owned();
    }
}

/// The text of a reply body behind its first word: what follows the first
/// white space, without the last character. There is none when nothing
/// follows the first white space, or when the body has no white space.
pub open spec fn body_text(body: Seq<char>) -> Option<Seq<char>> {
    let at = first_where(body, white_space()) as int;
    if at + 1 < body.len() {
        Some(body.subrange(at + 1, body.len() - 1))
    } else {
        None
    }
}

impl Event {
    /// Takes the text out of a reply body such as `+OK <text>` followed by
    /// a line feed: the part behind the first white space, without the last
    /// character.
    pub fn parse_body(body: &str) -> (text: Option<String>)
        ensures
            match text {
                Some(text) => body_text(body@) == Some(text@),
                None => body_text(body@) is None,
            },
    {
        if body.is_ascii() {
            Self::parse_ascii_body(body)
        } else {
            Self::parse_wide_body(body)
        }
    }

    /// `parse_body` for a body of ASCII characters, which are one byte each.
    fn parse_ascii_body(body: &str) -> (text: Option<String>)
        requires
            body.is_ascii(),
        ensures
            match text {
                Some(text) => body_text(body@) == Some(text@),
                None => body_text(body@) is None,
            },
    {
        broadcast use is_ascii_spec_bytes;

        let bytes = body.as_bytes();
        let n: usize = bytes.len();
        let mut at: usize = 0;
        while at < n && !is_space_byte(bytes[at])
            invariant
                at <= n,
                n == body@.len(),
                n == bytes@.len(),
                forall|j: int| 0 <= j < n ==> bytes@[j] == body@[j] as u8,
                forall|j: int| 0 <= j < n ==> '\0' <= #[trigger] body@[j] <= '\u{7f}',
                forall|j: int| 0 <= j < at ==> !white_space()(#[trigger] body@[j]),
            decreases n - at,
        {
            proof {
                lemma_space_below_128(body@[at as int]);
            }
            at += 1;
        }
        proof {
            if at < n {
                lemma_space_below_128(body@[at as int]);
                assert(white_space()(body@[at as int]));
            }
            lemma_first_where_is(body@, white_space(), at as int);
        }
        if at < n && at + 1 < n {
            Some(body.substring_ascii(at + 1, n - 1).to_owned())
        } else {
            None
        }
    }

    /// `parse_body` for any body, character by character.
    fn parse_wide_body(body: &str) -> (text: Option<String>)
        ensures
            match text {
                Some(text) => body_text(body@) == Some(text@),
                None => body_text(body@) is None,
            },
    {
        let n: usize = body.unicode_len();
        let mut at: usize = 0;
        while at < n
            invariant
                at <= n,
                n == body@.len(),
                forall|j: int| 0 <= j < at ==> !white_space()(#[trigger] body@[j]),
            ensures
                at <= n,
                at < n ==> white_space()(body@[at as int]),
                forall|j: int| 0 <= j < at ==> !white_space()(#[trigger] body@[j]),
            decreases n - at,
        {
            if is_white_space_char(body.get_char(at)) {
                break ;
            }
            at += 1;
        }
        proof {
            lemma_first_where_is(body@, white_space(), at as int);
        }
        if at < n && at + 1 < n {
            Some(body.substring_char(at + 1, n - 1).to_owned())
        } else {
            None
        }
    }
}

impl Clone for Event {
    fn clone(&self) -> (copy: Event)
        ensures
            copy@ == self@,
    {
        Event { header: self.header.clone(), body: self.body.clone() }
    }
}

impl Default for Event {
    fn default() -> (event: Event)
        ensures
            event@.header == Map::<Seq<char>, Seq<char>>::empty(),
            event@.body == Seq::<char>::empty(),
    {
        Event::new()
    }
}

/// A frame as a value: its own headers and the message it carries.
pub struct EslMsgView {
    pub header: Map<Seq<char>, Seq<char>>,
    pub event: EventView,
}

/// A frame as it came over the wire: the headers of the frame itself, and
/// the message that was read from it.
#[derive(Debug)]
pub struct EslMsg {
    pub header: Headers,
    pub event: Event,
}

impl View for EslMsg {
    type V = EslMsgView;

    open spec fn view(&self) -> EslMsgView {
        EslMsgView { header: self.header@, event: self.event@ }
    }
}

impl EslMsg {
    /// A frame without headers that carries an empty message.
    pub fn new() -> (msg: EslMsg)
        ensures
            msg@.header == Map::<Seq<char>, Seq<char>>::empty(),
            msg@.event.header == Map::<Seq<char>, Seq<char>>::empty(),
            msg@.event.body == Seq::<char>::empty(),
    {
        EslMsg { header: Headers::new(), event: Event::new() }
    }

    /// The message that the frame carries.
    pub fn ref_event(&self) -> (event: &Event)
        ensures
            event@ == self@.event,
    {
        &self.event
    }

    /// A copy of the message that the frame carries.
    pub fn event(&self) -> (event: Event)
        ensures
            event@ == self@.event,
    {
        self.event.clone()
    }
}

impl Default for EslMsg {
    fn default() -> (msg: EslMsg)
        ensures
            msg@.header == Map::<Seq<char>, Seq<char>>::empty(),
            msg@.event.header == Map::<Seq<char>, Seq<char>>::empty(),
            msg@.event.body == Seq::<char>::empty(),
    {
        EslMsg::new()
    }
}

} // verus!
