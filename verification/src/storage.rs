//! The three persistent runtime-state stores — session credentials, listener
//! state and responder state — with their text codec and the pure queries
//! over them.  The caller performs the file reads and writes; the stores turn
//! file contents into values and values into file contents, rejecting any
//! content that is not exactly an encoding.

use crate::codec::{
    enc_num, enc_str, lemma_enc_num_unique, lemma_enc_str_unique, lemma_split_at, parse_lit,
    parse_num, parse_str_field, push_enc_num, push_enc_str, push_lit,
};
use crate::numerals::dec_rep;
use crate::strutil::{chars_to_string, str_to_chars};
use vstd::prelude::*;

verus! {

/// Protocol session credentials, as plain values.
pub struct Session {
    /// The access token returned by the login.
    pub access_token: String,
    /// The user the session belongs to.
    pub user_id: String,
    /// The device the session was opened for.
    pub device_id: String,
}

/// Persistent session state: absent until the first successful login.
pub struct SessionStorage {
    /// The protocol session, once one has been established.
    pub session: Option<Session>,
}

/// Persistent listener state: the last sync cursor, and for each room the
/// time (seconds since the epoch) of the last corrective action taken there.
pub struct ListenerStorage {
    /// The last sync cursor token.
    pub last_sync: Option<String>,
    /// Room identifier and time of the last correction in that room.
    pub last_correction_time: Vec<(String, u64)>,
}

/// Persistent responder state: the last issued transaction id.
pub struct ResponderStorage {
    /// The counter behind the transaction ids; it only ever increases.
    pub last_txn_id: u64,
}

impl Default for SessionStorage {
    /// The state before any login.
    fn default() -> (r: Self)
        ensures
            r.session is None,
    {
        SessionStorage { session: None }
    }
}

impl Default for ListenerStorage {
    /// The state before any sync or correction.
    fn default() -> (r: Self)
        ensures
            r.last_sync is None,
            r.last_correction_time@.len() == 0,
    {
        ListenerStorage { last_sync: None, last_correction_time: Vec::new() }
    }
}

impl Default for ResponderStorage {
    /// The state before any transaction: ids start above zero.
    fn default() -> (r: Self)
        ensures
            r.last_txn_id == 0,
    {
        ResponderStorage { last_txn_id: 0 }
    }
}

/// The encoding of an optional string field.
pub open spec fn enc_opt_str(o: Option<String>) -> Seq<char> {
    match o {
        None => "none\n"@,
        Some(t) => "some\n"@ + enc_str(t@),
    }
}

/// The encoding of the session store.
pub open spec fn enc_session(st: SessionStorage) -> Seq<char> {
    "session\n"@ + match st.session {
        None => "none\n"@,
        Some(sd) => "some\n"@ + enc_str(sd.access_token@) + enc_str(sd.user_id@) + enc_str(
            sd.device_id@,
        ),
    }
}

/// The encoding of a run of room/time entries, in order.
pub open spec fn enc_entries(es: Seq<(Seq<char>, u64)>) -> Seq<char>
    decreases es.len(),
{
    if es.len() == 0 {
        Seq::empty()
    } else {
        enc_str(es[0].0) + enc_num(es[0].1) + enc_entries(es.skip(1))
    }
}

/// The encoding of the listener store: the sync cursor, the number of
/// entries, then the entries.
pub open spec fn enc_listener(st: ListenerStorage) -> Seq<char> {
    "listener\n"@ + enc_opt_str(st.last_sync) + enc_num(
        st.last_correction_time@.len() as u64,
    ) + enc_entries(st.last_correction_time.deep_view())
}

/// The encoding of the responder store.
pub open spec fn enc_responder(st: ResponderStorage) -> Seq<char> {
    "responder\n"@ + enc_num(st.last_txn_id)
}

/// Whether two optional strings hold the same text.
pub open spec fn opt_str_eq(a: Option<String>, b: Option<String>) -> bool {
    match (a, b) {
        (None, None) => true,
        (Some(x), Some(y)) => x@ == y@,
        _ => false,
    }
}

/// Equal sequences with an equal prefix have equal remainders.
pub proof fn lemma_prefix_cancel(p: Seq<char>, x: Seq<char>, y: Seq<char>)
    requires
        p + x == p + y,
    ensures
        x == y,
{
    assert((p + x).len() == p.len() + x.len());
    assert((p + y).len() == p.len() + y.len());
    assert(x =~= y) by {
        assert(forall|m: int|
            0 <= m < x.len() ==> x[m] == (p + x)[p.len() + m] && y[m] == (p + y)[p.len() + m]);
    }
}

/// An optional string field decomposes in only one way.
pub proof fn lemma_enc_opt_str_unique(a: Option<String>, b: Option<String>, x: Seq<char>, y: Seq<char>)
    requires
        enc_opt_str(a) + x == enc_opt_str(b) + y,
    ensures
        opt_str_eq(a, b),
        x == y,
{
    reveal_strlit("none\n");
    reveal_strlit("some\n");
    match (a, b) {
        (None, None) => {
            lemma_prefix_cancel("none\n"@, x, y);
        },
        (Some(s1), Some(s2)) => {
            assert(("some\n"@ + enc_str(s1@)) + x =~= "some\n"@ + (enc_str(s1@) + x));
            assert(("some\n"@ + enc_str(s2@)) + y =~= "some\n"@ + (enc_str(s2@) + y));
            lemma_prefix_cancel("some\n"@, enc_str(s1@) + x, enc_str(s2@) + y);
            lemma_enc_str_unique(s1@, s2@, x, y);
        },
        (None, Some(s2)) => {
            assert((enc_opt_str(a) + x)[0] == 'n');
            assert(("some\n"@ + enc_str(s2@) + y)[0] == 's');
        },
        (Some(s1), None) => {
            assert((enc_opt_str(b) + y)[0] == 'n');
            assert(("some\n"@ + enc_str(s1@) + x)[0] == 's');
        },
    }
}

/// Appending an entry to a run appends its encoding.
pub proof fn lemma_enc_entries_push(es: Seq<(Seq<char>, u64)>, e: (Seq<char>, u64))
    ensures
        enc_entries(es.push(e)) == enc_entries(es) + enc_str(e.0) + enc_num(e.1),
    decreases es.len(),
{
    if es.len() == 0 {
        assert(es.push(e)[0] == e);
        assert(es.push(e).skip(1) =~= Seq::<(Seq<char>, u64)>::empty());
        assert(es =~= Seq::<(Seq<char>, u64)>::empty());
        assert(enc_entries(Seq::<(Seq<char>, u64)>::empty()) =~= Seq::<char>::empty());
        assert(enc_entries(es.push(e)) =~= enc_entries(es) + enc_str(e.0) + enc_num(e.1));
    } else {
        assert(es.push(e).skip(1) =~= es.skip(1).push(e));
        lemma_enc_entries_push(es.skip(1), e);
        assert(es.push(e)[0] == es[0]);
        assert(enc_entries(es.push(e)) =~= enc_entries(es) + enc_str(e.0) + enc_num(e.1));
    }
}

/// A run of entries decomposes in only one way: if one run is no longer than
/// the other, it matches the other's first entries, and the remainders line
/// up after the shorter run.
pub proof fn lemma_enc_entries_unique_prefix(
    a: Seq<(Seq<char>, u64)>,
    x: Seq<char>,
    b: Seq<(Seq<char>, u64)>,
    y: Seq<char>,
)
    requires
        enc_entries(a) + x == enc_entries(b) + y,
        a.len() <= b.len(),
    ensures
        a == b.take(a.len() as int),
        x == enc_entries(b.skip(a.len() as int)) + y,
    decreases a.len(),
{
    if a.len() == 0 {
        assert(a =~= b.take(0));
        assert(b.skip(0) =~= b);
        assert(enc_entries(a) + x =~= x);
        assert(x =~= enc_entries(b.skip(0)) + y);
    } else {
        assert(enc_entries(a) + x =~= enc_str(a[0].0) + (enc_num(a[0].1) + (enc_entries(a.skip(1))
            + x)));
        assert(enc_entries(b) + y =~= enc_str(b[0].0) + (enc_num(b[0].1) + (enc_entries(b.skip(1))
            + y)));
        lemma_enc_str_unique(
            a[0].0,
            b[0].0,
            enc_num(a[0].1) + (enc_entries(a.skip(1)) + x),
            enc_num(b[0].1) + (enc_entries(b.skip(1)) + y),
        );
        lemma_enc_num_unique(
            a[0].1,
            b[0].1,
            enc_entries(a.skip(1)) + x,
            enc_entries(b.skip(1)) + y,
        );
        lemma_enc_entries_unique_prefix(a.skip(1), x, b.skip(1), y);
        assert(a[0] == b[0]);
        assert(a =~= b.take(a.len() as int)) by {
            assert(forall|m: int|
                1 <= m < a.len() ==> a[m] == a.skip(1)[m - 1] && #[trigger] b[m] == b.skip(1)[m
                    - 1]);
            assert(a.skip(1) == b.skip(1).take(a.len() - 1));
        }
        assert(b.skip(1).skip(a.len() - 1) =~= b.skip(a.len() as int));
    }
}

/// The responder encoding is injective: equal encodings mean equal stores.
pub proof fn lemma_enc_responder_injective(a: ResponderStorage, b: ResponderStorage)
    requires
        enc_responder(a) == enc_responder(b),
    ensures
        a == b,
{
    lemma_prefix_cancel("responder\n"@, enc_num(a.last_txn_id), enc_num(b.last_txn_id));
    lemma_enc_num_unique(a.last_txn_id, b.last_txn_id, Seq::empty(), Seq::empty());
}

/// The session encoding is injective up to the texts held: equal encodings
/// mean the same absence or the same credentials.
pub proof fn lemma_enc_session_injective(a: SessionStorage, b: SessionStorage)
    requires
        enc_session(a) == enc_session(b),
    ensures
        match (a.session, b.session) {
            (None, None) => true,
            (Some(x), Some(y)) => x.access_token@ == y.access_token@ && x.user_id@ == y.user_id@
                && x.device_id@ == y.device_id@,
            _ => false,
        },
{
    reveal_strlit("none\n");
    reveal_strlit("some\n");
    let ta = match a.session {
        None => "none\n"@,
        Some(sd) => "some\n"@ + enc_str(sd.access_token@) + enc_str(sd.user_id@) + enc_str(
            sd.device_id@,
        ),
    };
    let tb = match b.session {
        None => "none\n"@,
        Some(sd) => "some\n"@ + enc_str(sd.access_token@) + enc_str(sd.user_id@) + enc_str(
            sd.device_id@,
        ),
    };
    lemma_prefix_cancel("session\n"@, ta, tb);
    match (a.session, b.session) {
        (None, None) => {},
        (Some(x), Some(y)) => {
            assert(ta =~= "some\n"@ + (enc_str(x.access_token@) + (enc_str(x.user_id@) + enc_str(
                x.device_id@,
            ))));
            assert(tb =~= "some\n"@ + (enc_str(y.access_token@) + (enc_str(y.user_id@) + enc_str(
                y.device_id@,
            ))));
            lemma_prefix_cancel(
                "some\n"@,
                enc_str(x.access_token@) + (enc_str(x.user_id@) + enc_str(x.device_id@)),
                enc_str(y.access_token@) + (enc_str(y.user_id@) + enc_str(y.device_id@)),
            );
            lemma_enc_str_unique(
                x.access_token@,
                y.access_token@,
                enc_str(x.user_id@) + enc_str(x.device_id@),
                enc_str(y.user_id@) + enc_str(y.device_id@),
            );
            lemma_enc_str_unique(
                x.user_id@,
                y.user_id@,
                enc_str(x.device_id@),
                enc_str(y.device_id@),
            );
            lemma_enc_str_unique(x.device_id@, y.device_id@, Seq::empty(), Seq::empty());
        },
        (None, Some(y)) => {
            assert(ta[0] == 'n');
            assert(("some\n"@ + enc_str(y.access_token@) + enc_str(y.user_id@) + enc_str(
                y.device_id@,
            ))[0] == 's');
        },
        (Some(x), None) => {
            assert(tb[0] == 'n');
            assert(("some\n"@ + enc_str(x.access_token@) + enc_str(x.user_id@) + enc_str(
                x.device_id@,
            ))[0] == 's');
        },
    }
}

/// The listener encoding is injective up to the texts held: equal encodings
/// mean the same cursor and the same entries.
pub proof fn lemma_enc_listener_injective(a: ListenerStorage, b: ListenerStorage)
    requires
        enc_listener(a) == enc_listener(b),
    ensures
        opt_str_eq(a.last_sync, b.last_sync),
        a.last_correction_time.deep_view() == b.last_correction_time.deep_view(),
{
    let ea = a.last_correction_time.deep_view();
    let eb = b.last_correction_time.deep_view();
    let ka = a.last_correction_time@.len() as u64;
    let kb = b.last_correction_time@.len() as u64;
    assert(enc_listener(a) =~= "listener\n"@ + (enc_opt_str(a.last_sync) + (enc_num(ka)
        + enc_entries(ea))));
    assert(enc_listener(b) =~= "listener\n"@ + (enc_opt_str(b.last_sync) + (enc_num(kb)
        + enc_entries(eb))));
    lemma_prefix_cancel(
        "listener\n"@,
        enc_opt_str(a.last_sync) + (enc_num(ka) + enc_entries(ea)),
        enc_opt_str(b.last_sync) + (enc_num(kb) + enc_entries(eb)),
    );
    lemma_enc_opt_str_unique(
        a.last_sync,
        b.last_sync,
        enc_num(ka) + enc_entries(ea),
        enc_num(kb) + enc_entries(eb),
    );
    lemma_enc_num_unique(ka, kb, enc_entries(ea), enc_entries(eb));
    assert(a.last_correction_time@.len() <= usize::MAX) by {
        assert(a.last_correction_time.len() == a.last_correction_time@.len());
    }
    assert(b.last_correction_time@.len() <= usize::MAX) by {
        assert(b.last_correction_time.len() == b.last_correction_time@.len());
    }
    assert(ea.len() == eb.len());
    assert(enc_entries(ea) + Seq::<char>::empty() =~= enc_entries(ea));
    assert(enc_entries(eb) + Seq::<char>::empty() =~= enc_entries(eb));
    lemma_enc_entries_unique_prefix(ea, Seq::empty(), eb, Seq::empty());
    assert(eb.take(ea.len() as int) =~= eb);
}

impl ResponderStorage {
    /// Serializes the responder store for its backing file.
    pub fn save_storage(&self) -> (r: String)
        ensures
            r@ == enc_responder(*self),
    {
        let mut out: Vec<char> = Vec::new();
        push_lit(&mut out, "responder\n");
        push_enc_num(&mut out, self.last_txn_id);
        proof {
            assert(out@ =~= enc_responder(*self));
        }
        chars_to_string(&out)
    }

    /// Parses the responder store from its backing file's content.  Returns
    /// the unique store the content encodes, and nothing when the content is
    /// not an encoding: corrupted state is rejected, never guessed at.
    pub fn decode(s: &str) -> (r: Option<ResponderStorage>)
        ensures
            match r {
                Some(st) => s@ == enc_responder(st),
                None => forall|st: ResponderStorage| s@ != enc_responder(st),
            },
    {
        let cs = str_to_chars(s);
        let i = match parse_lit(&cs, 0, "responder\n") {
            Some(i) => i,
            None => {
                proof {
                    assert forall|st: ResponderStorage| s@ != enc_responder(st) by {
                        if s@ == enc_responder(st) {
                            assert(cs@.skip(0) =~= "responder\n"@ + enc_num(st.last_txn_id));
                        }
                    }
                }
                return None;
            },
        };
        let (n, j) = match parse_num(&cs, i) {
            Some(p) => p,
            None => {
                proof {
                    assert forall|st: ResponderStorage| s@ != enc_responder(st) by {
                        if s@ == enc_responder(st) {
                            lemma_split_at(cs@, 0, i as int);
                            assert(cs@.skip(0) =~= cs@);
                            assert(cs@ == cs@.subrange(0, i as int) + cs@.skip(i as int));
                            lemma_prefix_cancel(
                                "responder\n"@,
                                cs@.skip(i as int),
                                enc_num(st.last_txn_id),
                            );
                            assert(cs@.skip(i as int) =~= enc_num(st.last_txn_id)
                                + Seq::<char>::empty());
                        }
                    }
                }
                return None;
            },
        };
        if j != cs.len() {
            proof {
                assert forall|st: ResponderStorage| s@ != enc_responder(st) by {
                    if s@ == enc_responder(st) {
                        lemma_split_at(cs@, 0, i as int);
                        assert(cs@.skip(0) =~= cs@);
                        assert(cs@ == cs@.subrange(0, i as int) + cs@.skip(i as int));
                        lemma_prefix_cancel(
                            "responder\n"@,
                            cs@.skip(i as int),
                            enc_num(st.last_txn_id),
                        );
                        lemma_split_at(cs@, i as int, j as int);
                        assert(enc_num(n) + cs@.skip(j as int) == enc_num(st.last_txn_id)
                            + Seq::<char>::empty());
                        lemma_enc_num_unique(
                            n,
                            st.last_txn_id,
                            cs@.skip(j as int),
                            Seq::empty(),
                        );
                        assert(cs@.skip(j as int).len() == 0);
                    }
                }
            }
            return None;
        }
        let st = ResponderStorage { last_txn_id: n };
        proof {
            lemma_split_at(cs@, 0, i as int);
            assert(cs@.skip(0) =~= cs@);
            assert(cs@.skip(i as int) =~= cs@.subrange(i as int, j as int));
            assert(s@ =~= enc_responder(st));
        }
        Some(st)
    }

    /// Sets the transaction counter to a new value and returns that value as
    /// a decimal string.  The counter only ever increases, so consecutive
    /// calls yield the strictly increasing sequence of decimal ids; the
    /// store must be saved before the id is used externally.
    pub fn next_txn_id(&mut self) -> (r: String)
        requires
            old(self).last_txn_id < u64::MAX,
        ensures
            final (self).last_txn_id == old(self).last_txn_id + 1,
            r@ == dec_rep((old(self).last_txn_id + 1) as nat),
    {
        self.last_txn_id = self.last_txn_id + 1;
        crate::numerals::u64_to_dec_string(self.last_txn_id)
    }
}

/// Distinct counter values yield distinct transaction-id strings, so the ids
/// issued by a counter that only ever increases never repeat.
pub proof fn lemma_txn_ids_distinct(m: u64, n: u64)
    requires
        m != n,
    ensures
        dec_rep(m as nat) != dec_rep(n as nat),
{
    if dec_rep(m as nat) == dec_rep(n as nat) {
        crate::numerals::lemma_dec_rep_injective(m as nat, n as nat);
    }
}

/// The recorded correction time for a room: the first entry under that
/// room's identifier.
pub open spec fn spec_time_of(es: Seq<(Seq<char>, u64)>, room: Seq<char>) -> Option<u64>
    decreases es.len(),
{
    if es.len() == 0 {
        None
    } else if es[0].0 == room {
        Some(es[0].1)
    } else {
        spec_time_of(es.skip(1), room)
    }
}

/// A time lookup that has not matched among the first `i` entries continues
/// on the remainder.
proof fn lemma_time_of_skip(es: Seq<(Seq<char>, u64)>, room: Seq<char>, i: int)
    requires
        0 <= i <= es.len(),
        forall|j: int| 0 <= j < i ==> (#[trigger] es[j]).0 != room,
    ensures
        spec_time_of(es, room) == spec_time_of(es.skip(i), room),
    decreases i,
{
    if i > 0 {
        lemma_time_of_skip(es.skip(1), room, i - 1);
        assert(forall|j: int| 0 <= j < i - 1 ==> (#[trigger] es.skip(1)[j]) == es[j + 1]);
        assert(es.skip(1).skip(i - 1) =~= es.skip(i));
    } else {
        assert(es.skip(0) =~= es);
    }
}

impl ListenerStorage {
    /// Serializes the listener store for its backing file.
    pub fn save_storage(&self) -> (r: String)
        ensures
            r@ == enc_listener(*self),
    {
        let mut out: Vec<char> = Vec::new();
        push_lit(&mut out, "listener\n");
        match &self.last_sync {
            None => push_lit(&mut out, "none\n"),
            Some(t) => {
                push_lit(&mut out, "some\n");
                push_enc_str(&mut out, t);
            },
        }
        proof {
            assert(out@ =~= "listener\n"@ + enc_opt_str(self.last_sync));
        }
        let k = self.last_correction_time.len();
        push_enc_num(&mut out, k as u64);
        let ghost entries = self.last_correction_time.deep_view();
        let ghost head = out@;
        let mut m: usize = 0;
        while m < k
            invariant
                m <= k,
                k == self.last_correction_time@.len(),
                entries == self.last_correction_time.deep_view(),
                entries.len() == k,
                out@ == head + enc_entries(entries.take(m as int)),
            decreases k - m,
        {
            let room = &self.last_correction_time[m].0;
            let time = self.last_correction_time[m].1;
            push_enc_str(&mut out, room);
            push_enc_num(&mut out, time);
            proof {
                assert(entries.take(m + 1) =~= entries.take(m as int).push(entries[m as int]));
                lemma_enc_entries_push(entries.take(m as int), entries[m as int]);
                assert(entries[m as int].0 == room@);
                assert(entries[m as int].1 == time);
                assert(out@ =~= head + enc_entries(entries.take(m + 1)));
            }
            m = m + 1;
        }
        proof {
            assert(entries.take(k as int) =~= entries);
            assert(out@ =~= enc_listener(*self));
        }
        chars_to_string(&out)
    }

    /// Checks that the correction cooldown for the room has passed: true
    /// when no correction was ever made there, and otherwise exactly when
    /// the recorded time lies at least the cooldown window — three hundred
    /// seconds — in the past.  A recorded time in the future counts as not
    /// passed, so a skewed clock suppresses corrections rather than
    /// releasing them.
    pub fn correction_time_cooldown(&self, room_id: &String, now_secs: u64) -> (r: bool)
        ensures
            r == match spec_time_of(self.last_correction_time.deep_view(), room_id@) {
                None => true,
                Some(t) => t <= now_secs && now_secs - t >= 300,
            },
    {
        let ghost es = self.last_correction_time.deep_view();
        let mut i: usize = 0;
        while i < self.last_correction_time.len()
            invariant
                i <= self.last_correction_time@.len(),
                es == self.last_correction_time.deep_view(),
                es.len() == self.last_correction_time@.len(),
                forall|j: int| 0 <= j < i ==> (#[trigger] es[j]).0 != room_id@,
            decreases self.last_correction_time@.len() - i,
        {
            if self.last_correction_time[i].0.eq(room_id) {
                proof {
                    assert(es[i as int].0 == self.last_correction_time@[i as int].0@);
                    lemma_time_of_skip(es, room_id@, i as int);
                    assert(es.skip(i as int)[0] == es[i as int]);
                    assert(es.skip(i as int).len() > 0);
                }
                let t = self.last_correction_time[i].1;
                proof {
                    assert(es[i as int].1 == t);
                    assert(spec_time_of(es, room_id@) == Some(t));
                }
                return t <= now_secs && now_secs - t >= 300;
            }
            proof {
                assert(es[i as int].0 == self.last_correction_time@[i as int].0@);
            }
            i = i + 1;
        }
        proof {
            lemma_time_of_skip(es, room_id@, es.len() as int);
            assert(es.skip(es.len() as int) =~= Seq::<(Seq<char>, u64)>::empty());
        }
        true
    }
}

impl SessionStorage {
    /// Serializes the session store for its backing file.
    pub fn save(&self) -> (r: String)
        ensures
            r@ == enc_session(*self),
    {
        let mut out: Vec<char> = Vec::new();
        push_lit(&mut out, "session\n");
        match &self.session {
            None => push_lit(&mut out, "none\n"),
            Some(sd) => {
                push_lit(&mut out, "some\n");
                push_enc_str(&mut out, &sd.access_token);
                push_enc_str(&mut out, &sd.user_id);
                push_enc_str(&mut out, &sd.device_id);
            },
        }
        proof {
            assert(out@ =~= enc_session(*self));
        }
        chars_to_string(&out)
    }
}

/// Parses an optional string field at the given position.  Fails exactly
/// when no optional string field stands there.
fn parse_opt_str(cs: &Vec<char>, i: usize) -> (r: Option<(Option<String>, usize)>)
    requires
        i <= cs@.len(),
    ensures
        match r {
            Some((o, j)) => {
                &&& i <= j <= cs@.len()
                &&& cs@.subrange(i as int, j as int) == enc_opt_str(o)
            },
            None => forall|o: Option<String>, rest: Seq<char>|
                cs@.skip(i as int) != enc_opt_str(o) + rest,
        },
{
    if let Some(j) = parse_lit(cs, i, "none\n") {
        return Some((None, j));
    }
    // No "none" tag stands here.
    match parse_lit(cs, i, "some\n") {
        None => {
            proof {
                reveal_strlit("none\n");
                reveal_strlit("some\n");
                assert forall|o: Option<String>, rest: Seq<char>|
                    cs@.skip(i as int) != enc_opt_str(o) + rest by {
                    if cs@.skip(i as int) == enc_opt_str(o) + rest {
                        match o {
                            None => {
                                assert(cs@.skip(i as int) =~= "none\n"@ + rest);
                            },
                            Some(t) => {
                                assert(cs@.skip(i as int) =~= "some\n"@ + (enc_str(t@) + rest));
                            },
                        }
                    }
                }
            }
            None
        },
        Some(j2) => {
            match parse_str_field(cs, j2) {
                None => {
                    proof {
                        reveal_strlit("none\n");
                        reveal_strlit("some\n");
                        assert forall|o: Option<String>, rest: Seq<char>|
                            cs@.skip(i as int) != enc_opt_str(o) + rest by {
                            if cs@.skip(i as int) == enc_opt_str(o) + rest {
                                match o {
                                    None => {
                                        assert(cs@.skip(i as int) =~= "none\n"@ + rest);
                                    },
                                    Some(t) => {
                                        lemma_split_at(cs@, i as int, j2 as int);
                                        assert(cs@.skip(i as int) =~= "some\n"@ + (enc_str(t@)
                                            + rest));
                                        lemma_prefix_cancel(
                                            "some\n"@,
                                            cs@.skip(j2 as int),
                                            enc_str(t@) + rest,
                                        );
                                    },
                                }
                            }
                        }
                    }
                    None
                },
                Some((t, j3)) => {
                    proof {
                        assert(cs@.subrange(i as int, j3 as int) =~= enc_opt_str(Some(t))) by {
                            lemma_split_at(cs@, i as int, j2 as int);
                            assert(forall|m: int|
                                0 <= m < j3 - i ==> cs@.subrange(i as int, j3 as int)[m] == cs@[i
                                    + m]);
                        }
                    }
                    Some((Some(t), j3))
                },
            }
        },
    }
}

/// From a full listener encoding and the parts parsed so far, the remaining
/// suffix is the encoding of the remaining entries.
proof fn lemma_listener_mid(
    cs: Seq<char>,
    st: ListenerStorage,
    i1: int,
    j_opt: int,
    pos0: int,
    pos: int,
    sync: Option<String>,
    k: u64,
    es: Seq<(Seq<char>, u64)>,
)
    requires
        cs == enc_listener(st),
        0 <= i1 <= j_opt <= pos0 <= pos <= cs.len(),
        cs.subrange(0, i1) == "listener\n"@,
        i1 == "listener\n"@.len(),
        cs.subrange(i1, j_opt) == enc_opt_str(sync),
        cs.subrange(j_opt, pos0) == enc_num(k),
        cs.subrange(pos0, pos) == enc_entries(es),
        es.len() <= k as nat,
    ensures
        opt_str_eq(st.last_sync, sync),
        st.last_correction_time@.len() == k as nat,
        es == st.last_correction_time.deep_view().take(es.len() as int),
        cs.skip(pos) == enc_entries(st.last_correction_time.deep_view().skip(es.len() as int)),
{
    let stes = st.last_correction_time.deep_view();
    let stk = st.last_correction_time@.len() as u64;
    assert(cs =~= "listener\n"@ + (enc_opt_str(st.last_sync) + (enc_num(stk) + enc_entries(
        stes,
    ))));
    lemma_split_at(cs, 0, i1);
    assert(cs.skip(0) =~= cs);
    lemma_prefix_cancel(
        "listener\n"@,
        cs.skip(i1),
        enc_opt_str(st.last_sync) + (enc_num(stk) + enc_entries(stes)),
    );
    lemma_split_at(cs, i1, j_opt);
    assert(enc_opt_str(sync) + cs.skip(j_opt) == enc_opt_str(st.last_sync) + (enc_num(stk)
        + enc_entries(stes)));
    lemma_enc_opt_str_unique(
        sync,
        st.last_sync,
        cs.skip(j_opt),
        enc_num(stk) + enc_entries(stes),
    );
    lemma_split_at(cs, j_opt, pos0);
    assert(enc_num(k) + cs.skip(pos0) == enc_num(stk) + enc_entries(stes));
    lemma_enc_num_unique(k, stk, cs.skip(pos0), enc_entries(stes));
    assert(st.last_correction_time@.len() <= usize::MAX) by {
        assert(st.last_correction_time.len() == st.last_correction_time@.len());
    }
    assert(st.last_correction_time@.len() == k as nat);
    assert(stes.len() == k as nat);
    lemma_split_at(cs, pos0, pos);
    assert(enc_entries(es) + cs.skip(pos) == enc_entries(stes));
    assert(enc_entries(es) + cs.skip(pos) =~= enc_entries(stes) + Seq::<char>::empty());
    lemma_enc_entries_unique_prefix(es, cs.skip(pos), stes, Seq::empty());
    assert(cs.skip(pos) =~= enc_entries(stes.skip(es.len() as int)));
}

impl ListenerStorage {
    /// Parses the listener store from its backing file's content.  Returns
    /// the unique store the content encodes, and nothing when the content is
    /// not an encoding: corrupted state is rejected, never guessed at.
    #[verifier::rlimit(60)]
    pub fn decode(s: &str) -> (r: Option<ListenerStorage>)
        ensures
            match r {
                Some(st) => s@ == enc_listener(st),
                None => forall|st: ListenerStorage| s@ != enc_listener(st),
            },
    {
        let cs = str_to_chars(s);
        let i1 = match parse_lit(&cs, 0, "listener\n") {
            Some(i) => i,
            None => {
                proof {
                    assert forall|st: ListenerStorage| s@ != enc_listener(st) by {
                        if s@ == enc_listener(st) {
                            assert(cs@.skip(0) =~= "listener\n"@ + (enc_opt_str(st.last_sync)
                                + (enc_num(st.last_correction_time@.len() as u64) + enc_entries(
                                st.last_correction_time.deep_view(),
                            ))));
                        }
                    }
                }
                return None;
            },
        };
        let (sync, j_opt) = match parse_opt_str(&cs, i1) {
            Some(p) => p,
            None => {
                proof {
                    assert forall|st: ListenerStorage| s@ != enc_listener(st) by {
                        if s@ == enc_listener(st) {
                            assert(cs@ =~= "listener\n"@ + (enc_opt_str(st.last_sync) + (enc_num(
                                st.last_correction_time@.len() as u64,
                            ) + enc_entries(st.last_correction_time.deep_view()))));
                            lemma_split_at(cs@, 0, i1 as int);
                            assert(cs@.skip(0) =~= cs@);
                            lemma_prefix_cancel(
                                "listener\n"@,
                                cs@.skip(i1 as int),
                                enc_opt_str(st.last_sync) + (enc_num(
                                    st.last_correction_time@.len() as u64,
                                ) + enc_entries(st.last_correction_time.deep_view())),
                            );
                        }
                    }
                }
                return None;
            },
        };
        let (k, pos0) = match parse_num(&cs, j_opt) {
            Some(p) => p,
            None => {
                proof {
                    assert forall|st: ListenerStorage| s@ != enc_listener(st) by {
                        if s@ == enc_listener(st) {
                            let stk = st.last_correction_time@.len() as u64;
                            let stes = st.last_correction_time.deep_view();
                            assert(cs@ =~= "listener\n"@ + (enc_opt_str(st.last_sync) + (enc_num(
                                stk,
                            ) + enc_entries(stes))));
                            lemma_split_at(cs@, 0, i1 as int);
                            assert(cs@.skip(0) =~= cs@);
                            lemma_prefix_cancel(
                                "listener\n"@,
                                cs@.skip(i1 as int),
                                enc_opt_str(st.last_sync) + (enc_num(stk) + enc_entries(stes)),
                            );
                            lemma_split_at(cs@, i1 as int, j_opt as int);
                            assert(enc_opt_str(sync) + cs@.skip(j_opt as int) == enc_opt_str(
                                st.last_sync,
                            ) + (enc_num(stk) + enc_entries(stes)));
                            lemma_enc_opt_str_unique(
                                sync,
                                st.last_sync,
                                cs@.skip(j_opt as int),
                                enc_num(stk) + enc_entries(stes),
                            );
                        }
                    }
                }
                return None;
            },
        };
        let ghost syncv = sync;
        let mut es: Vec<(String, u64)> = Vec::new();
        let mut pos: usize = pos0;
        let mut m: u64 = 0;
        while m < k
            invariant
                0 <= i1 <= j_opt <= pos0 <= pos <= cs@.len(),
                cs@ == s@,
                cs@.subrange(0, i1 as int) == "listener\n"@,
                i1 as int == "listener\n"@.len(),
                cs@.subrange(i1 as int, j_opt as int) == enc_opt_str(syncv),
                cs@.subrange(j_opt as int, pos0 as int) == enc_num(k),
                cs@.subrange(pos0 as int, pos as int) == enc_entries(es.deep_view()),
                es@.len() == m as nat,
                m <= k,
            decreases k - m,
        {
            let (room, p1) = match parse_str_field(&cs, pos) {
                Some(p) => p,
                None => {
                    proof {
                        assert forall|st: ListenerStorage| s@ != enc_listener(st) by {
                            if s@ == enc_listener(st) {
                                lemma_listener_mid(
                                    cs@,
                                    st,
                                    i1 as int,
                                    j_opt as int,
                                    pos0 as int,
                                    pos as int,
                                    syncv,
                                    k,
                                    es.deep_view(),
                                );
                                let rest = st.last_correction_time.deep_view().skip(
                                    es.deep_view().len() as int,
                                );
                                assert(rest.len() > 0);
                                assert(cs@.skip(pos as int) =~= enc_str(rest[0].0) + (enc_num(
                                    rest[0].1,
                                ) + enc_entries(rest.skip(1))));
                            }
                        }
                    }
                    return None;
                },
            };
            let (tval, p2) = match parse_num(&cs, p1) {
                Some(p) => p,
                None => {
                    proof {
                        assert forall|st: ListenerStorage| s@ != enc_listener(st) by {
                            if s@ == enc_listener(st) {
                                lemma_listener_mid(
                                    cs@,
                                    st,
                                    i1 as int,
                                    j_opt as int,
                                    pos0 as int,
                                    pos as int,
                                    syncv,
                                    k,
                                    es.deep_view(),
                                );
                                let rest = st.last_correction_time.deep_view().skip(
                                    es.deep_view().len() as int,
                                );
                                assert(rest.len() > 0);
                                assert(cs@.skip(pos as int) =~= enc_str(rest[0].0) + (enc_num(
                                    rest[0].1,
                                ) + enc_entries(rest.skip(1))));
                                lemma_split_at(cs@, pos as int, p1 as int);
                                lemma_enc_str_unique(
                                    room@,
                                    rest[0].0,
                                    cs@.skip(p1 as int),
                                    enc_num(rest[0].1) + enc_entries(rest.skip(1)),
                                );
                            }
                        }
                    }
                    return None;
                },
            };
            let ghost es_deep_before = es.deep_view();
            es.push((room, tval));
            proof {
                assert(es.deep_view() =~= es_deep_before.push((room@, tval))) by {
                    assert forall|q: int|
                        0 <= q < es.deep_view().len() implies es.deep_view()[q]
                        == es_deep_before.push((room@, tval))[q] by {
                        assert(es.deep_view()[q] == es@[q].deep_view());
                    }
                }
                lemma_enc_entries_push(es_deep_before, (room@, tval));
                assert(cs@.subrange(pos0 as int, p2 as int) =~= enc_entries(es.deep_view())) by {
                    lemma_split_at(cs@, pos0 as int, pos as int);
                    lemma_split_at(cs@, pos as int, p1 as int);
                    assert(forall|q: int|
                        0 <= q < p2 - pos0 ==> cs@.subrange(pos0 as int, p2 as int)[q] == cs@[pos0
                            + q]);
                    assert(forall|q: int|
                        0 <= q < p1 - pos ==> cs@.subrange(pos as int, p1 as int)[q] == cs@[pos
                            + q]);
                    assert(forall|q: int|
                        0 <= q < p2 - p1 ==> cs@.subrange(p1 as int, p2 as int)[q] == cs@[p1 + q]);
                    assert(forall|q: int|
                        0 <= q < pos - pos0 ==> cs@.subrange(pos0 as int, pos as int)[q] == cs@[
                        pos0 + q]);
                }
            }
            pos = p2;
            m = m + 1;
        }
        if pos != cs.len() {
            proof {
                assert forall|st: ListenerStorage| s@ != enc_listener(st) by {
                    if s@ == enc_listener(st) {
                        lemma_listener_mid(
                            cs@,
                            st,
                            i1 as int,
                            j_opt as int,
                            pos0 as int,
                            pos as int,
                            syncv,
                            k,
                            es.deep_view(),
                        );
                        let rest = st.last_correction_time.deep_view().skip(
                            es.deep_view().len() as int,
                        );
                        assert(rest.len() == 0);
                        assert(rest =~= Seq::<(Seq<char>, u64)>::empty());
                        assert(enc_entries(rest) =~= Seq::<char>::empty());
                        assert(cs@.skip(pos as int).len() == 0);
                    }
                }
            }
            return None;
        }
        let st = ListenerStorage { last_sync: sync, last_correction_time: es };
        proof {
            assert(st.last_correction_time@.len() == k as nat);
            assert(st.last_correction_time@.len() as u64 == k);
            assert(s@ =~= enc_listener(st)) by {
                lemma_split_at(cs@, 0, i1 as int);
                lemma_split_at(cs@, i1 as int, j_opt as int);
                lemma_split_at(cs@, j_opt as int, pos0 as int);
                assert(cs@.skip(0) =~= cs@);
                assert(cs@.skip(pos0 as int) =~= cs@.subrange(pos0 as int, pos as int));
            }
        }
        Some(st)
    }
}

/// From a full session encoding whose header has been matched, the remaining
/// suffix is the encoding of the optional credentials.
proof fn lemma_session_tail(cs: Seq<char>, st: SessionStorage, i1: int)
    requires
        cs == enc_session(st),
        0 <= i1 <= cs.len(),
        cs.subrange(0, i1) == "session\n"@,
        i1 == "session\n"@.len(),
    ensures
        cs.skip(i1) == match st.session {
            None => "none\n"@,
            Some(sd) => "some\n"@ + (enc_str(sd.access_token@) + (enc_str(sd.user_id@) + enc_str(
                sd.device_id@,
            ))),
        },
{
    let tail = match st.session {
        None => "none\n"@,
        Some(sd) => "some\n"@ + (enc_str(sd.access_token@) + (enc_str(sd.user_id@) + enc_str(
            sd.device_id@,
        ))),
    };
    assert(cs =~= "session\n"@ + tail);
    lemma_split_at(cs, 0, i1);
    assert(cs.skip(0) =~= cs);
    lemma_prefix_cancel("session\n"@, cs.skip(i1), tail);
}

impl SessionStorage {
    /// Parses the session store from its backing file's content.  Returns
    /// the unique store the content encodes, and nothing when the content is
    /// not an encoding: corrupted state is rejected, never guessed at.
    #[verifier::rlimit(60)]
    pub fn decode(s: &str) -> (r: Option<SessionStorage>)
        ensures
            match r {
                Some(st) => s@ == enc_session(st),
                None => forall|st: SessionStorage| s@ != enc_session(st),
            },
    {
        let cs = str_to_chars(s);
        let i1 = match parse_lit(&cs, 0, "session\n") {
            Some(i) => i,
            None => {
                proof {
                    assert forall|st: SessionStorage| s@ != enc_session(st) by {
                        if s@ == enc_session(st) {
                            assert(cs@.skip(0) =~= "session\n"@ + (match st.session {
                                None => "none\n"@,
                                Some(sd) => "some\n"@ + enc_str(sd.access_token@) + enc_str(
                                    sd.user_id@,
                                ) + enc_str(sd.device_id@),
                            }));
                        }
                    }
                }
                return None;
            },
        };
        if let Some(j) = parse_lit(&cs, i1, "none\n") {
            if j == cs.len() {
                let st = SessionStorage { session: None };
                proof {
                    lemma_split_at(cs@, 0, i1 as int);
                    assert(cs@.skip(0) =~= cs@);
                    assert(cs@.skip(i1 as int) =~= cs@.subrange(i1 as int, j as int));
                    assert(s@ =~= enc_session(st));
                }
                return Some(st);
            } else {
                proof {
                    reveal_strlit("none\n");
                    reveal_strlit("some\n");
                    assert forall|st: SessionStorage| s@ != enc_session(st) by {
                        if s@ == enc_session(st) {
                            lemma_session_tail(cs@, st, i1 as int);
                            lemma_split_at(cs@, i1 as int, j as int);
                            match st.session {
                                None => {
                                    lemma_prefix_cancel(
                                        "none\n"@,
                                        cs@.skip(j as int),
                                        Seq::empty(),
                                    );
                                    assert(cs@.skip(j as int).len() == 0);
                                },
                                Some(sd) => {
                                    assert(cs@.skip(i1 as int)[0] == 's');
                                    assert(cs@.subrange(i1 as int, j as int)[0] == 'n');
                                    assert(cs@.skip(i1 as int)[0] == cs@[i1 as int]);
                                },
                            }
                        }
                    }
                }
                return None;
            }
        }
        // No "none" tag stands after the header.
        let j2 = match parse_lit(&cs, i1, "some\n") {
            Some(j2) => j2,
            None => {
                proof {
                    assert forall|st: SessionStorage| s@ != enc_session(st) by {
                        if s@ == enc_session(st) {
                            lemma_session_tail(cs@, st, i1 as int);
                            match st.session {
                                None => {
                                    assert(cs@.skip(i1 as int) =~= "none\n"@ + Seq::<char>::empty());
                                },
                                Some(sd) => {},
                            }
                        }
                    }
                }
                return None;
            },
        };
        let (at, j3) = match parse_str_field(&cs, j2) {
            Some(p) => p,
            None => {
                proof {
                    assert forall|st: SessionStorage| s@ != enc_session(st) by {
                        if s@ == enc_session(st) {
                            lemma_session_tail(cs@, st, i1 as int);
                            match st.session {
                                None => {
                                    assert(cs@.skip(i1 as int) =~= "none\n"@ + Seq::<char>::empty());
                                },
                                Some(sd) => {
                                    lemma_split_at(cs@, i1 as int, j2 as int);
                                    lemma_prefix_cancel(
                                        "some\n"@,
                                        cs@.skip(j2 as int),
                                        enc_str(sd.access_token@) + (enc_str(sd.user_id@)
                                            + enc_str(sd.device_id@)),
                                    );
                                },
                            }
                        }
                    }
                }
                return None;
            },
        };
        let (ut, j4) = match parse_str_field(&cs, j3) {
            Some(p) => p,
            None => {
                proof {
                    assert forall|st: SessionStorage| s@ != enc_session(st) by {
                        if s@ == enc_session(st) {
                            lemma_session_tail(cs@, st, i1 as int);
                            match st.session {
                                None => {
                                    assert(cs@.skip(i1 as int) =~= "none\n"@ + Seq::<char>::empty());
                                },
                                Some(sd) => {
                                    lemma_split_at(cs@, i1 as int, j2 as int);
                                    lemma_prefix_cancel(
                                        "some\n"@,
                                        cs@.skip(j2 as int),
                                        enc_str(sd.access_token@) + (enc_str(sd.user_id@)
                                            + enc_str(sd.device_id@)),
                                    );
                                    lemma_split_at(cs@, j2 as int, j3 as int);
                                    lemma_enc_str_unique(
                                        at@,
                                        sd.access_token@,
                                        cs@.skip(j3 as int),
                                        enc_str(sd.user_id@) + enc_str(sd.device_id@),
                                    );
                                },
                            }
                        }
                    }
                }
                return None;
            },
        };
        let (dt, j5) = match parse_str_field(&cs, j4) {
            Some(p) => p,
            None => {
                proof {
                    assert forall|st: SessionStorage| s@ != enc_session(st) by {
                        if s@ == enc_session(st) {
                            lemma_session_tail(cs@, st, i1 as int);
                            match st.session {
                                None => {
                                    assert(cs@.skip(i1 as int) =~= "none\n"@ + Seq::<char>::empty());
                                },
                                Some(sd) => {
                                    lemma_split_at(cs@, i1 as int, j2 as int);
                                    lemma_prefix_cancel(
                                        "some\n"@,
                                        cs@.skip(j2 as int),
                                        enc_str(sd.access_token@) + (enc_str(sd.user_id@)
                                            + enc_str(sd.device_id@)),
                                    );
                                    lemma_split_at(cs@, j2 as int, j3 as int);
                                    lemma_enc_str_unique(
                                        at@,
                                        sd.access_token@,
                                        cs@.skip(j3 as int),
                                        enc_str(sd.user_id@) + enc_str(sd.device_id@),
                                    );
                                    lemma_split_at(cs@, j3 as int, j4 as int);
                                    lemma_enc_str_unique(
                                        ut@,
                                        sd.user_id@,
                                        cs@.skip(j4 as int),
                                        enc_str(sd.device_id@),
                                    );
                                    assert(cs@.skip(j4 as int) =~= enc_str(sd.device_id@)
                                        + Seq::<char>::empty());
                                },
                            }
                        }
                    }
                }
                return None;
            },
        };
        if j5 != cs.len() {
            proof {
                assert forall|st: SessionStorage| s@ != enc_session(st) by {
                    if s@ == enc_session(st) {
                        lemma_session_tail(cs@, st, i1 as int);
                        match st.session {
                            None => {
                                assert(cs@.skip(i1 as int) =~= "none\n"@ + Seq::<char>::empty());
                            },
                            Some(sd) => {
                                lemma_split_at(cs@, i1 as int, j2 as int);
                                lemma_prefix_cancel(
                                    "some\n"@,
                                    cs@.skip(j2 as int),
                                    enc_str(sd.access_token@) + (enc_str(sd.user_id@) + enc_str(
                                        sd.device_id@,
                                    )),
                                );
                                lemma_split_at(cs@, j2 as int, j3 as int);
                                lemma_enc_str_unique(
                                    at@,
                                    sd.access_token@,
                                    cs@.skip(j3 as int),
                                    enc_str(sd.user_id@) + enc_str(sd.device_id@),
                                );
                                lemma_split_at(cs@, j3 as int, j4 as int);
                                lemma_enc_str_unique(
                                    ut@,
                                    sd.user_id@,
                                    cs@.skip(j4 as int),
                                    enc_str(sd.device_id@),
                                );
                                lemma_split_at(cs@, j4 as int, j5 as int);
                                lemma_enc_str_unique(
                                    dt@,
                                    sd.device_id@,
                                    cs@.skip(j5 as int),
                                    Seq::empty(),
                                );
                                assert(cs@.skip(j5 as int).len() == 0);
                            },
                        }
                    }
                }
            }
            return None;
        }
        let st = SessionStorage {
            session: Some(Session { access_token: at, user_id: ut, device_id: dt }),
        };
        proof {
            assert(s@ =~= enc_session(st)) by {
                lemma_split_at(cs@, 0, i1 as int);
                lemma_split_at(cs@, i1 as int, j2 as int);
                lemma_split_at(cs@, j2 as int, j3 as int);
                lemma_split_at(cs@, j3 as int, j4 as int);
                assert(cs@.skip(0) =~= cs@);
                assert(cs@.skip(j4 as int) =~= cs@.subrange(j4 as int, j5 as int));
            }
        }
        Some(st)
    }
}

/// What reading a store's backing file produced: the caller performs the
/// read and hands the outcome in as a plain value.
pub enum ReadOutcome {
    /// The file does not exist.
    Missing,
    /// The file was read whole; its text follows.
    Content(String),
    /// Opening the file was denied.
    PermissionDenied,
    /// Opening the file failed for another reason.
    OtherOpenError,
    /// The file opened but reading its contents failed.
    ReadError,
}

/// A fatal storage failure.  Every category carries its own process status
/// code so an operator can diagnose the failure from the exit status alone.
#[derive(Clone, Copy, Debug, PartialEq, Eq, Structural)]
pub enum StorageError {
    /// Opening the backing file was denied.
    OpenDenied,
    /// Opening the backing file failed.
    OpenFailed,
    /// Reading the backing file failed.
    ReadFailed,
    /// The backing file holds no valid encoding of the store.
    CorruptStore,
    /// Opening or creating the backing file for writing failed.
    WriteOpenFailed,
    /// Writing the backing file failed.
    WriteFailed,
}

impl StorageError {
    /// The process status code of the failure category.
    pub fn exit_code(&self) -> (r: u8)
        ensures
            r == match self {
                StorageError::OpenDenied => 1u8,
                StorageError::OpenFailed => 1u8,
                StorageError::ReadFailed => 2u8,
                StorageError::CorruptStore => 3u8,
                StorageError::WriteOpenFailed => 9u8,
                StorageError::WriteFailed => 10u8,
            },
    {
        match self {
            StorageError::OpenDenied => 1,
            StorageError::OpenFailed => 1,
            StorageError::ReadFailed => 2,
            StorageError::CorruptStore => 3,
            StorageError::WriteOpenFailed => 9,
            StorageError::WriteFailed => 10,
        }
    }
}

impl SessionStorage {
    /// Decides the load of the session store from the outcome of reading its
    /// backing file.  A missing file yields the default store and the text
    /// to persist for it, so later runs see a stable file; valid content
    /// yields the store it encodes; anything else is fatal.
    pub fn load_storage(outcome: ReadOutcome) -> (r: Result<
        (SessionStorage, Option<String>),
        StorageError,
    >)
        ensures
            match outcome {
                ReadOutcome::Missing => {
                    &&& r matches Ok(p)
                    &&& p.0.session is None
                    &&& p.1 matches Some(text) && text@ == enc_session(p.0)
                },
                ReadOutcome::Content(s) => match r {
                    Ok(p) => p.1 is None && s@ == enc_session(p.0),
                    Err(e) => e == StorageError::CorruptStore && forall|st: SessionStorage|
                        s@ != enc_session(st),
                },
                ReadOutcome::PermissionDenied => r == Err::<(SessionStorage, Option<String>),
                    StorageError,
                >(StorageError::OpenDenied),
                ReadOutcome::OtherOpenError => r == Err::<(SessionStorage, Option<String>),
                    StorageError,
                >(StorageError::OpenFailed),
                ReadOutcome::ReadError => r == Err::<(SessionStorage, Option<String>),
                    StorageError,
                >(StorageError::ReadFailed),
            },
    {
        match outcome {
            ReadOutcome::Missing => {
                let st = SessionStorage::default();
                let text = st.save();
                Ok((st, Some(text)))
            },
            ReadOutcome::Content(s) => match SessionStorage::decode(s.as_str()) {
                Some(st) => Ok((st, None)),
                None => Err(StorageError::CorruptStore),
            },
            ReadOutcome::PermissionDenied => Err(StorageError::OpenDenied),
            ReadOutcome::OtherOpenError => Err(StorageError::OpenFailed),
            ReadOutcome::ReadError => Err(StorageError::ReadFailed),
        }
    }
}

impl ListenerStorage {
    /// Decides the load of the listener store from the outcome of reading
    /// its backing file, as [`SessionStorage::load_storage`] does for the
    /// session store.
    pub fn load_storage(outcome: ReadOutcome) -> (r: Result<
        (ListenerStorage, Option<String>),
        StorageError,
    >)
        ensures
            match outcome {
                ReadOutcome::Missing => {
                    &&& r matches Ok(p)
                    &&& p.0.last_sync is None
                    &&& p.0.last_correction_time@.len() == 0
                    &&& p.1 matches Some(text) && text@ == enc_listener(p.0)
                },
                ReadOutcome::Content(s) => match r {
                    Ok(p) => p.1 is None && s@ == enc_listener(p.0),
                    Err(e) => e == StorageError::CorruptStore && forall|st: ListenerStorage|
                        s@ != enc_listener(st),
                },
                ReadOutcome::PermissionDenied => r == Err::<(ListenerStorage, Option<String>),
                    StorageError,
                >(StorageError::OpenDenied),
                ReadOutcome::OtherOpenError => r == Err::<(ListenerStorage, Option<String>),
                    StorageError,
                >(StorageError::OpenFailed),
                ReadOutcome::ReadError => r == Err::<(ListenerStorage, Option<String>),
                    StorageError,
                >(StorageError::ReadFailed),
            },
    {
        match outcome {
            ReadOutcome::Missing => {
                let st = ListenerStorage::default();
                let text = st.save_storage();
                Ok((st, Some(text)))
            },
            ReadOutcome::Content(s) => match ListenerStorage::decode(s.as_str()) {
                Some(st) => Ok((st, None)),
                None => Err(StorageError::CorruptStore),
            },
            ReadOutcome::PermissionDenied => Err(StorageError::OpenDenied),
            ReadOutcome::OtherOpenError => Err(StorageError::OpenFailed),
            ReadOutcome::ReadError => Err(StorageError::ReadFailed),
        }
    }
}

impl ResponderStorage {
    /// Decides the load of the responder store from the outcome of reading
    /// its backing file, as [`SessionStorage::load_storage`] does for the
    /// session store.
    pub fn load_storage(outcome: ReadOutcome) -> (r: Result<
        (ResponderStorage, Option<String>),
        StorageError,
    >)
        ensures
            match outcome {
                ReadOutcome::Missing => {
                    &&& r matches Ok(p)
                    &&& p.0.last_txn_id == 0
                    &&& p.1 matches Some(text) && text@ == enc_responder(p.0)
                },
                ReadOutcome::Content(s) => match r {
                    Ok(p) => p.1 is None && s@ == enc_responder(p.0),
                    Err(e) => e == StorageError::CorruptStore && forall|st: ResponderStorage|
                        s@ != enc_responder(st),
                },
                ReadOutcome::PermissionDenied => r == Err::<(ResponderStorage, Option<String>),
                    StorageError,
                >(StorageError::OpenDenied),
                ReadOutcome::OtherOpenError => r == Err::<(ResponderStorage, Option<String>),
                    StorageError,
                >(StorageError::OpenFailed),
                ReadOutcome::ReadError => r == Err::<(ResponderStorage, Option<String>),
                    StorageError,
                >(StorageError::ReadFailed),
            },
    {
        match outcome {
            ReadOutcome::Missing => {
                let st = ResponderStorage::default();
                let text = st.save_storage();
                Ok((st, Some(text)))
            },
            ReadOutcome::Content(s) => match ResponderStorage::decode(s.as_str()) {
                Some(st) => Ok((st, None)),
                None => Err(StorageError::CorruptStore),
            },
            ReadOutcome::PermissionDenied => Err(StorageError::OpenDenied),
            ReadOutcome::OtherOpenError => Err(StorageError::OpenFailed),
            ReadOutcome::ReadError => Err(StorageError::ReadFailed),
        }
    }
}

} // verus!
