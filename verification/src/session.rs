//! The per-line execution engine of a session.
//!
//! `handle_line` takes one line as the client sent it (without its line
//! delimiter), parses it, executes it against the store, and returns exactly
//! one reply together with the session's next state. The whole
//! read-modify-write of `incr` happens inside the one call, so a caller that
//! holds the store lock around `handle_line` gets atomic increments.
//!
//! Policy choices left open by the protocol, decided here:
//! - `mset` applies all its pairs, left to right, and acknowledges with `OK`.
//! - `incr` reads the stored value as an unsigned 64-bit decimal numeral;
//!   a non-numeral value, a value above `u64::MAX`, or an increment past
//!   `u64::MAX` replies `ERR` and leaves the store unchanged. It never
//!   panics and never saturates. (A negative stored value cannot arise:
//!   values enter the store only as alphanumeric tokens or as numerals
//!   written by `incr` itself.)
//! - Writes to the in-memory store cannot fail, so the `ERR` reply reserved
//!   for a failed write never arises; `set` and `mset` always acknowledge.

use crate::decimal::dec_digits;
use crate::decimal::dec_value;
use crate::decimal::digit_val;
use crate::decimal::is_digit_string;
use crate::decimal::lemma_dec_digits_is_digit_string;
use crate::decimal::lemma_dec_value_of_digits;
use crate::decimal::parse_u64;
use crate::decimal::u64_to_dec;
use crate::parser::Command;
use crate::parser::CommandModel;
use crate::parser::KeyValue;
use crate::parser::command_of_line;
use crate::parser::join_fields;
use crate::parser::lemma_join_push;
use crate::parser::parse_command;
use crate::store::KvStore;
use crate::store::as_map;
use crate::store::distinct_keys;
use crate::store::keys_of;
use crate::store::lemma_as_map_contains;
use crate::store::lemma_put_entry_map;
use crate::store::put_entry;
use vstd::prelude::*;
use vstd::string::*;

verus! {

/// The state of one session: it accepts lines while `Active` and accepts
/// nothing once `Closed`.
#[derive(Debug, PartialEq, Eq, Structural, Clone, Copy)]
pub enum SessionState {
    Active,
    Closed,
}

pub open spec fn ok_reply() -> Seq<char> {
    seq!['O', 'K']
}

pub open spec fn err_reply() -> Seq<char> {
    seq!['E', 'R', 'R']
}

pub open spec fn nil_reply() -> Seq<char> {
    seq!['N', 'I', 'L']
}

pub open spec fn inv_reply() -> Seq<char> {
    seq!['I', 'N', 'V']
}

pub open spec fn bye_reply() -> Seq<char> {
    seq!['B', 'Y', 'E']
}

/// The value `incr` starts from: the stored value, or `"0"` for an absent
/// key.
pub open spec fn stored_or_zero(s: Seq<(Seq<char>, Seq<char>)>, k: Seq<char>) -> Seq<char> {
    if as_map(s).contains_key(k) {
        as_map(s)[k]
    } else {
        seq!['0']
    }
}

/// Whether a stored value can be incremented: a decimal numeral whose
/// successor still fits in a `u64`.
pub open spec fn incr_ok(v: Seq<char>) -> bool {
    is_digit_string(v) && dec_value(v) + 1 <= u64::MAX
}

/// The store after an `mset`, its pairs applied left to right.
pub open spec fn mset_put(
    s: Seq<(Seq<char>, Seq<char>)>,
    ps: Seq<(Seq<char>, Seq<char>)>,
) -> Seq<(Seq<char>, Seq<char>)>
    decreases ps.len(),
{
    if ps.len() == 0 {
        s
    } else {
        mset_put(put_entry(s, ps[0].0, ps[0].1), ps.drop_first())
    }
}

/// The store after one command is executed against it.
pub open spec fn store_after(
    s: Seq<(Seq<char>, Seq<char>)>,
    c: CommandModel,
) -> Seq<(Seq<char>, Seq<char>)> {
    match c {
        CommandModel::Get(_) => s,
        CommandModel::Put(k, v) => put_entry(s, k, v),
        CommandModel::MSet(ps) => mset_put(s, ps),
        CommandModel::Increment(k) => if incr_ok(stored_or_zero(s, k)) {
            put_entry(s, k, dec_digits(dec_value(stored_or_zero(s, k)) + 1))
        } else {
            s
        },
        CommandModel::List => s,
        CommandModel::Exit => s,
    }
}

/// The one reply a command draws from a store.
pub open spec fn reply_for(s: Seq<(Seq<char>, Seq<char>)>, c: CommandModel) -> Seq<char> {
    match c {
        CommandModel::Get(k) => if as_map(s).contains_key(k) {
            as_map(s)[k]
        } else {
            nil_reply()
        },
        CommandModel::Put(_, _) => ok_reply(),
        CommandModel::MSet(_) => ok_reply(),
        CommandModel::Increment(k) => if incr_ok(stored_or_zero(s, k)) {
            dec_digits(dec_value(stored_or_zero(s, k)) + 1)
        } else {
            err_reply()
        },
        CommandModel::List => join_fields(keys_of(s)),
        CommandModel::Exit => bye_reply(),
    }
}

/// The session state after a command: only `exit` closes the session.
pub open spec fn state_after(c: CommandModel) -> SessionState {
    if c is Exit {
        SessionState::Closed
    } else {
        SessionState::Active
    }
}

/// Applying one more `mset` pair on the right.
proof fn lemma_mset_put_push(
    s: Seq<(Seq<char>, Seq<char>)>,
    ps: Seq<(Seq<char>, Seq<char>)>,
    p: (Seq<char>, Seq<char>),
)
    ensures
        mset_put(s, ps.push(p)) == put_entry(mset_put(s, ps), p.0, p.1),
    decreases ps.len(),
{
    let q = ps.push(p);
    assert(q.len() > 0);
    assert(mset_put(s, q) == mset_put(put_entry(s, q[0].0, q[0].1), q.drop_first()));
    if ps.len() == 0 {
        assert(q.drop_first() =~= Seq::<(Seq<char>, Seq<char>)>::empty());
        assert(q[0] == p);
        assert(mset_put(put_entry(s, p.0, p.1), q.drop_first()) == put_entry(s, p.0, p.1));
        assert(mset_put(s, ps) == s);
    } else {
        lemma_mset_put_push(put_entry(s, ps[0].0, ps[0].1), ps.drop_first(), p);
        assert(q.drop_first() =~= ps.drop_first().push(p));
        assert(q[0] == ps[0]);
        assert(mset_put(s, ps) == mset_put(put_entry(s, ps[0].0, ps[0].1), ps.drop_first()));
    }
}

/// Joins strings with single spaces, the `list` reply format.
#[verifier::loop_isolation(false)]
fn join_with_spaces(items: &Vec<String>) -> (r: String)
    ensures
        r@ == join_fields(items.deep_view()),
{
    proof {
        reveal_strlit(" ");
    }
    let ghost dv = items.deep_view();
    let mut r = String::new();
    let mut i: usize = 0;
    while i < items.len()
        invariant
            0 <= i <= items@.len(),
            dv == items.deep_view(),
            dv.len() == items@.len(),
            r@ == join_fields(dv.take(i as int)),
        decreases items@.len() - i,
    {
        if i > 0 {
            r.append(" ");
        }
        r.append(items[i].as_str());
        proof {
            lemma_join_push(dv.take(i as int), dv[i as int]);
            assert(dv.take(i + 1) =~= dv.take(i as int).push(dv[i as int]));
            assert(" "@ =~= seq![' ']);
        }
        i = i + 1;
    }
    proof {
        assert(dv.take(items@.len() as int) =~= dv);
    }
    r
}

/// Executes one line against the store and returns the single reply and the
/// session's next state.
///
/// An unparseable line replies `INV`, leaves the store untouched and keeps
/// the session `Active`; only `exit` closes the session.
#[verifier::loop_isolation(false)]
pub fn handle_line(store: &mut KvStore, line: &str) -> (r: (String, SessionState))
    requires
        old(store).wf(),
    ensures
        final(store).wf(),
        match command_of_line(line@) {
            Some(c) => final(store)@ == store_after(old(store)@, c) && r.0@ == reply_for(
                old(store)@,
                c,
            ) && r.1 == state_after(c),
            None => final(store)@ == old(store)@ && r.0@ == inv_reply() && r.1
                == SessionState::Active,
        },
{
    proof {
        reveal_strlit("OK");
        reveal_strlit("ERR");
        reveal_strlit("NIL");
        reveal_strlit("INV");
        reveal_strlit("BYE");
        reveal_strlit("0");
        assert("OK"@ =~= ok_reply());
        assert("ERR"@ =~= err_reply());
        assert("NIL"@ =~= nil_reply());
        assert("INV"@ =~= inv_reply());
        assert("BYE"@ =~= bye_reply());
        assert("0"@ =~= seq!['0']);
    }
    match parse_command(line) {
        None => (String::from_str("INV"), SessionState::Active),
        Some(cmd) => match cmd {
            Command::Get(k) => match store.get(k.as_str()) {
                Some(v) => (v, SessionState::Active),
                None => (String::from_str("NIL"), SessionState::Active),
            },
            Command::Put(kv) => {
                store.put(kv.key.as_str(), kv.value.as_str());
                (String::from_str("OK"), SessionState::Active)
            },
            Command::MSet(kvs) => {
                let ghost s0 = store@;
                let ghost ps = kvs@.map_values(|kv: KeyValue| kv@);
                let mut i: usize = 0;
                while i < kvs.len()
                    invariant
                        0 <= i <= kvs@.len(),
                        store.wf(),
                        store@ == mset_put(s0, ps.take(i as int)),
                    decreases kvs@.len() - i,
                {
                    let kv = &kvs[i];
                    proof {
                        lemma_mset_put_push(s0, ps.take(i as int), ps[i as int]);
                        assert(ps.take(i + 1) =~= ps.take(i as int).push(ps[i as int]));
                        assert(ps[i as int] == (kv.key@, kv.value@));
                    }
                    store.put(kv.key.as_str(), kv.value.as_str());
                    i = i + 1;
                }
                proof {
                    assert(ps.take(kvs@.len() as int) =~= ps);
                }
                (String::from_str("OK"), SessionState::Active)
            },
            Command::Increment(k) => {
                let cur: String = match store.get(k.as_str()) {
                    Some(v) => v,
                    None => String::from_str("0"),
                };
                proof {
                    assert(cur@ == stored_or_zero(store@, k@));
                }
                match parse_u64(cur.as_str()) {
                    Some(n) => {
                        if n < u64::MAX {
                            let text = u64_to_dec(n + 1);
                            store.put(k.as_str(), text.as_str());
                            (text, SessionState::Active)
                        } else {
                            (String::from_str("ERR"), SessionState::Active)
                        }
                    },
                    None => (String::from_str("ERR"), SessionState::Active),
                }
            },
            Command::List => {
                let keys = store.list_keys();
                let reply = join_with_spaces(&keys);
                (reply, SessionState::Active)
            },
            Command::Exit => (String::from_str("BYE"), SessionState::Closed),
        },
    }
}

/// Law: read your write. After `set k v`, a `get k` replies exactly `v`.
pub proof fn lemma_set_then_get(
    s: Seq<(Seq<char>, Seq<char>)>,
    k: Seq<char>,
    v: Seq<char>,
)
    requires
        distinct_keys(s),
    ensures
        reply_for(store_after(s, CommandModel::Put(k, v)), CommandModel::Get(k)) == v,
{
    lemma_put_entry_map(s, k, v);
}

/// Law: a `get` on a key that was never bound replies the `NIL` sentinel.
pub proof fn lemma_get_never_set(s: Seq<(Seq<char>, Seq<char>)>, k: Seq<char>)
    requires
        !as_map(s).contains_key(k),
    ensures
        reply_for(s, CommandModel::Get(k)) == nil_reply(),
{
}

/// `"0"` is a numeral denoting zero, so an absent key can always be
/// incremented.
proof fn lemma_zero_numeral()
    ensures
        is_digit_string(seq!['0']),
        dec_value(seq!['0']) == 0,
{
    assert(seq!['0'].drop_last() =~= Seq::<char>::empty());
    assert(seq!['0'].last() == '0');
    assert(dec_value(Seq::<char>::empty()) == 0);
    assert(digit_val('0') == 0);
}

/// Law: `incr` on an absent key replies `"1"` and binds the key to `"1"`.
pub proof fn lemma_increment_absent(s: Seq<(Seq<char>, Seq<char>)>, k: Seq<char>)
    requires
        distinct_keys(s),
        !as_map(s).contains_key(k),
    ensures
        reply_for(s, CommandModel::Increment(k)) == seq!['1'],
        as_map(store_after(s, CommandModel::Increment(k))) == as_map(s).insert(k, seq!['1']),
        distinct_keys(store_after(s, CommandModel::Increment(k))),
{
    lemma_zero_numeral();
    assert(dec_digits(1) =~= seq!['1']);
    lemma_put_entry_map(s, k, dec_digits(1));
}

/// Law: `incr` on a key holding the numeral for `n` replies the numeral for
/// `n + 1` and rebinds the key to it.
pub proof fn lemma_increment_step(s: Seq<(Seq<char>, Seq<char>)>, k: Seq<char>, n: nat)
    requires
        distinct_keys(s),
        as_map(s).contains_key(k),
        as_map(s)[k] == dec_digits(n),
        n + 1 <= u64::MAX,
    ensures
        reply_for(s, CommandModel::Increment(k)) == dec_digits(n + 1),
        as_map(store_after(s, CommandModel::Increment(k))) == as_map(s).insert(
            k,
            dec_digits(n + 1),
        ),
        distinct_keys(store_after(s, CommandModel::Increment(k))),
{
    lemma_dec_digits_is_digit_string(n);
    lemma_dec_value_of_digits(n);
    assert(incr_ok(stored_or_zero(s, k)));
    lemma_put_entry_map(s, k, dec_digits(n + 1));
}

/// The store after `n` consecutive `incr` commands on one key.
pub open spec fn increments(
    s: Seq<(Seq<char>, Seq<char>)>,
    k: Seq<char>,
    n: nat,
) -> Seq<(Seq<char>, Seq<char>)>
    decreases n,
{
    if n == 0 {
        s
    } else {
        store_after(increments(s, k, (n - 1) as nat), CommandModel::Increment(k))
    }
}

/// Law: starting from an absent key, `n` serial `incr` commands reply the
/// numerals `1` through `n` — the `n`-th replies exactly `n`, with no
/// duplicate and no gap — and leave the key bound to `n`.
pub proof fn lemma_increment_series(s: Seq<(Seq<char>, Seq<char>)>, k: Seq<char>, n: nat)
    requires
        distinct_keys(s),
        !as_map(s).contains_key(k),
        1 <= n <= u64::MAX,
    ensures
        reply_for(increments(s, k, (n - 1) as nat), CommandModel::Increment(k)) == dec_digits(n),
        as_map(increments(s, k, n)) == as_map(s).insert(k, dec_digits(n)),
        distinct_keys(increments(s, k, n)),
    decreases n,
{
    if n == 1 {
        lemma_increment_absent(s, k);
        assert(dec_digits(1) =~= seq!['1']);
    } else {
        lemma_increment_series(s, k, (n - 1) as nat);
        let prev = increments(s, k, (n - 1) as nat);
        lemma_increment_step(prev, k, (n - 1) as nat);
        assert(as_map(s).insert(k, dec_digits((n - 1) as nat)).insert(k, dec_digits(n)) =~= as_map(
            s,
        ).insert(k, dec_digits(n)));
    }
}

/// Law: the bound keys are exactly what the map holds, so the `list` reply —
/// the joined key list — shows each bound key and nothing else.
pub proof fn lemma_list_reflects_keys(s: Seq<(Seq<char>, Seq<char>)>)
    ensures
        reply_for(s, CommandModel::List) == join_fields(keys_of(s)),
        forall|k: Seq<char>| keys_of(s).contains(k) <==> #[trigger] as_map(s).contains_key(k),
{
    assert forall|k: Seq<char>|
        keys_of(s).contains(k) <==> #[trigger] as_map(s).contains_key(k) by {
        lemma_as_map_contains(s, k);
    }
}

/// Law: `set` and `incr` each bind their key, whatever order they complete
/// in: the set of bound keys afterwards is the old set plus that key.
pub proof fn lemma_dom_after_put(s: Seq<(Seq<char>, Seq<char>)>, k: Seq<char>, v: Seq<char>)
    requires
        distinct_keys(s),
    ensures
        as_map(store_after(s, CommandModel::Put(k, v))).dom() == as_map(s).dom().insert(k),
{
    lemma_put_entry_map(s, k, v);
    assert(as_map(put_entry(s, k, v)).dom() =~= as_map(s).dom().insert(k));
}

/// Law: `incr` binds its key even when it fails, because it can only fail on
/// a key that is already bound.
pub proof fn lemma_dom_after_increment(s: Seq<(Seq<char>, Seq<char>)>, k: Seq<char>)
    requires
        distinct_keys(s),
    ensures
        as_map(store_after(s, CommandModel::Increment(k))).dom() == as_map(s).dom().insert(k),
{
    if incr_ok(stored_or_zero(s, k)) {
        lemma_put_entry_map(s, k, dec_digits(dec_value(stored_or_zero(s, k)) + 1));
        assert(as_map(store_after(s, CommandModel::Increment(k))).dom() =~= as_map(
            s,
        ).dom().insert(k));
    } else {
        lemma_zero_numeral();
        assert(as_map(s).contains_key(k));
        assert(as_map(s).dom().insert(k) =~= as_map(s).dom());
    }
}

/// Law: the set of bound keys after two `set` commands does not depend on
/// their order.
pub proof fn lemma_dom_put_commutes(
    s: Seq<(Seq<char>, Seq<char>)>,
    k1: Seq<char>,
    v1: Seq<char>,
    k2: Seq<char>,
    v2: Seq<char>,
)
    requires
        distinct_keys(s),
    ensures
        as_map(
            store_after(store_after(s, CommandModel::Put(k1, v1)), CommandModel::Put(k2, v2)),
        ).dom() == as_map(
            store_after(store_after(s, CommandModel::Put(k2, v2)), CommandModel::Put(k1, v1)),
        ).dom(),
{
    lemma_put_entry_map(s, k1, v1);
    lemma_put_entry_map(s, k2, v2);
    lemma_dom_after_put(s, k1, v1);
    lemma_dom_after_put(s, k2, v2);
    lemma_dom_after_put(store_after(s, CommandModel::Put(k1, v1)), k2, v2);
    lemma_dom_after_put(store_after(s, CommandModel::Put(k2, v2)), k1, v1);
    assert(as_map(s).dom().insert(k1).insert(k2) =~= as_map(s).dom().insert(k2).insert(k1));
}

/// Law: `exit` replies `BYE`, closes the session, and touches nothing.
pub proof fn lemma_exit_closes(s: Seq<(Seq<char>, Seq<char>)>)
    ensures
        reply_for(s, CommandModel::Exit) == bye_reply(),
        state_after(CommandModel::Exit) == SessionState::Closed,
        store_after(s, CommandModel::Exit) == s,
{
}

/// One client session: its state machine over lines. It must only be handed
/// lines while `Active`; a caller that sees `Closed` sends no further
/// replies.
pub struct Session {
    state: SessionState,
}

impl Session {
    /// The session's current state.
    pub closed spec fn state(&self) -> SessionState {
        self.state
    }

    /// A fresh session, ready for its first line.
    pub fn new() -> (s: Self)
        ensures
            s.state() == SessionState::Active,
    {
        Session { state: SessionState::Active }
    }

    /// Whether the session still accepts lines.
    pub fn is_active(&self) -> (r: bool)
        ensures
            r == (self.state() == SessionState::Active),
    {
        self.state == SessionState::Active
    }

    /// Feeds one line to the session. Callable only while `Active`; after an
    /// `exit` line the session is `Closed` and accepts nothing more.
    pub fn process_line(&mut self, store: &mut KvStore, line: &str) -> (reply: String)
        requires
            old(self).state() == SessionState::Active,
            old(store).wf(),
        ensures
            final(store).wf(),
            match command_of_line(line@) {
                Some(c) => final(store)@ == store_after(old(store)@, c) && reply@ == reply_for(
                    old(store)@,
                    c,
                ) && final(self).state() == state_after(c),
                None => final(store)@ == old(store)@ && reply@ == inv_reply() && final(self).state()
                    == SessionState::Active,
            },
    {
        let (reply, next) = handle_line(store, line);
        self.state = next;
        reply
    }
}

} // verus!
