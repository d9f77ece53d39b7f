//! The command grammar and its parser.
//!
//! A line holds exactly one command: a case-insensitive keyword followed by
//! its arguments, all separated by single ASCII spaces. An argument token is
//! one or more ASCII alphanumeric characters and is case-sensitive. Anything
//! else — leading or trailing whitespace, empty tokens, characters outside
//! the token alphabet — makes the whole line unparseable.

use vstd::prelude::*;
use vstd::std_specs::cmp::PartialEqSpec;
use vstd::string::*;

verus! {

/// One `key value` argument pair, as carried by `set` and `mset`.
#[derive(Debug)]
pub struct KeyValue {
    pub key: String,
    pub value: String,
}

impl View for KeyValue {
    type V = (Seq<char>, Seq<char>);

    open spec fn view(&self) -> (Seq<char>, Seq<char>) {
        (self.key@, self.value@)
    }
}

/// A parsed command, the closed set of requests a session can execute.
#[derive(Debug)]
pub enum Command {
    Get(String),
    /// The `set` command (named `Put` here, since `Set` is a Verus prelude word).
    Put(KeyValue),
    MSet(Vec<KeyValue>),
    Increment(String),
    List,
    Exit,
}

/// The mathematical shape of a command: every argument as a character
/// sequence.
pub ghost enum CommandModel {
    Get(Seq<char>),
    Put(Seq<char>, Seq<char>),
    MSet(Seq<(Seq<char>, Seq<char>)>),
    Increment(Seq<char>),
    List,
    Exit,
}

impl View for Command {
    type V = CommandModel;

    open spec fn view(&self) -> CommandModel {
        match self {
            Command::Get(k) => CommandModel::Get(k@),
            Command::Put(kv) => CommandModel::Put(kv.key@, kv.value@),
            Command::MSet(kvs) => CommandModel::MSet(kvs@.map_values(|kv: KeyValue| kv@)),
            Command::Increment(k) => CommandModel::Increment(k@),
            Command::List => CommandModel::List,
            Command::Exit => CommandModel::Exit,
        }
    }
}

impl PartialEq for KeyValue {
    fn eq(&self, other: &KeyValue) -> bool {
        self.key == other.key && self.value == other.value
    }
}

impl vstd::std_specs::cmp::PartialEqSpecImpl for KeyValue {
    open spec fn obeys_eq_spec() -> bool {
        true
    }

    open spec fn eq_spec(&self, other: &KeyValue) -> bool {
        self@ == other@
    }
}

impl PartialEq for Command {
    fn eq(&self, other: &Command) -> bool {
        match (self, other) {
            (Command::Get(a), Command::Get(b)) => *a == *b,
            (Command::Put(a), Command::Put(b)) => a == b,
            (Command::MSet(a), Command::MSet(b)) => {
                let r = a == b;
                proof {
                    let f = |kv: KeyValue| kv@;
                    let ma = a@.map_values(f);
                    let mb = b@.map_values(f);
                    assert(ma.len() == a@.len() && mb.len() == b@.len());
                    if r {
                        assert(ma =~= mb);
                        assert(self@ == other@);
                    } else {
                        if a@.len() == b@.len() {
                            let i = choose|i: int|
                                0 <= i < a@.len() && !(#[trigger] a@[i]).eq_spec(&b@[i]);
                            assert(ma[i] != mb[i]);
                        }
                        assert(ma != mb);
                        assert(self@ != other@);
                    }
                }
                r
            },
            (Command::Increment(a), Command::Increment(b)) => *a == *b,
            (Command::List, Command::List) => true,
            (Command::Exit, Command::Exit) => true,
            _ => false,
        }
    }
}

impl vstd::std_specs::cmp::PartialEqSpecImpl for Command {
    open spec fn obeys_eq_spec() -> bool {
        true
    }

    open spec fn eq_spec(&self, other: &Command) -> bool {
        self@ == other@
    }
}

/// A character the token alphabet accepts: ASCII alphanumeric.
pub open spec fn is_token_char(c: char) -> bool {
    (48 <= c as u32 <= 57) || (65 <= c as u32 <= 90) || (97 <= c as u32 <= 122)
}

/// An argument token: one or more alphanumeric characters.
pub open spec fn is_token(t: Seq<char>) -> bool {
    t.len() > 0 && forall|i: int| 0 <= i < t.len() ==> is_token_char(t[i])
}

/// ASCII-case-insensitive equality of two characters.
pub open spec fn char_ci_eq(a: char, b: char) -> bool {
    ||| a as u32 == b as u32
    ||| (65 <= a as u32 <= 90 && a as u32 + 32 == b as u32)
    ||| (65 <= b as u32 <= 90 && b as u32 + 32 == a as u32)
}

/// ASCII-case-insensitive equality of two character sequences.
pub open spec fn ci_eq(a: Seq<char>, b: Seq<char>) -> bool {
    a.len() == b.len() && forall|i: int| 0 <= i < a.len() ==> char_ci_eq(a[i], b[i])
}

pub open spec fn kw_get() -> Seq<char> {
    seq!['g', 'e', 't']
}

pub open spec fn kw_set() -> Seq<char> {
    seq!['s', 'e', 't']
}

pub open spec fn kw_mset() -> Seq<char> {
    seq!['m', 's', 'e', 't']
}

pub open spec fn kw_incr() -> Seq<char> {
    seq!['i', 'n', 'c', 'r']
}

pub open spec fn kw_list() -> Seq<char> {
    seq!['l', 'i', 's', 't']
}

pub open spec fn kw_exit() -> Seq<char> {
    seq!['e', 'x', 'i', 't']
}

/// Splits a line at every single ASCII space. Adjacent, leading or trailing
/// spaces produce empty fields, which no command form accepts.
pub open spec fn split_fields(s: Seq<char>) -> Seq<Seq<char>>
    decreases s.len(),
{
    if s.len() == 0 {
        seq![Seq::<char>::empty()]
    } else if s[0] == ' ' {
        seq![Seq::<char>::empty()] + split_fields(s.drop_first())
    } else {
        let rest = split_fields(s.drop_first());
        seq![seq![s[0]] + rest[0]] + rest.drop_first()
    }
}

/// Joins fields with single spaces; the left inverse of `split_fields`.
pub open spec fn join_fields(ts: Seq<Seq<char>>) -> Seq<char>
    decreases ts.len(),
{
    if ts.len() == 0 {
        Seq::<char>::empty()
    } else if ts.len() == 1 {
        ts[0]
    } else {
        ts[0] + seq![' '] + join_fields(ts.drop_first())
    }
}

/// Appending a field extends the joined line by one space and the field.
pub proof fn lemma_join_push(ts: Seq<Seq<char>>, t: Seq<char>)
    ensures
        join_fields(ts.push(t)) == if ts.len() == 0 {
            t
        } else {
            join_fields(ts) + seq![' '] + t
        },
    decreases ts.len(),
{
    if ts.len() == 0 {
        assert(ts.push(t)[0] == t);
    } else if ts.len() == 1 {
        assert(ts.push(t).drop_first() =~= seq![t]);
        assert(ts.push(t)[0] == ts[0]);
        assert(join_fields(seq![t]) == t);
        assert(join_fields(ts.push(t)) == ts[0] + seq![' '] + t);
    } else {
        lemma_join_push(ts.drop_first(), t);
        assert(ts.push(t).drop_first() =~= ts.drop_first().push(t));
        assert(join_fields(ts) + seq![' '] + t =~= ts[0] + seq![' '] + (join_fields(
            ts.drop_first(),
        ) + seq![' '] + t));
    }
}

/// The key/value pairs of an `mset` line whose fields are `ts`, the keyword
/// at index zero and the arguments alternating key, value.
pub open spec fn mset_pairs(ts: Seq<Seq<char>>) -> Seq<(Seq<char>, Seq<char>)> {
    Seq::new(((ts.len() - 1) / 2) as nat, |i: int| (ts[1 + 2 * i], ts[2 + 2 * i]))
}

/// The grammar: which command, if any, a line denotes. Each form demands the
/// whole line — its keyword, its exact argument count, and every argument a
/// valid token. The forms are mutually exclusive because their keywords are.
pub open spec fn command_of_line(s: Seq<char>) -> Option<CommandModel> {
    let ts = split_fields(s);
    if ci_eq(ts[0], kw_get()) && ts.len() == 2 && is_token(ts[1]) {
        Some(CommandModel::Get(ts[1]))
    } else if ci_eq(ts[0], kw_set()) && ts.len() == 3 && is_token(ts[1]) && is_token(ts[2]) {
        Some(CommandModel::Put(ts[1], ts[2]))
    } else if ci_eq(ts[0], kw_mset()) && ts.len() >= 3 && ts.len() % 2 == 1 && (forall|i: int|
        1 <= i < ts.len() ==> is_token(ts[i]))
    {
        Some(CommandModel::MSet(mset_pairs(ts)))
    } else if ci_eq(ts[0], kw_incr()) && ts.len() == 2 && is_token(ts[1]) {
        Some(CommandModel::Increment(ts[1]))
    } else if ci_eq(ts[0], kw_list()) && ts.len() == 1 {
        Some(CommandModel::List)
    } else if ci_eq(ts[0], kw_exit()) && ts.len() == 1 {
        Some(CommandModel::Exit)
    } else {
        None
    }
}

/// A line without spaces is one single field.
pub proof fn lemma_split_no_space(s: Seq<char>)
    requires
        forall|j: int| 0 <= j < s.len() ==> s[j] != ' ',
    ensures
        split_fields(s) == seq![s],
    decreases s.len(),
{
    if s.len() == 0 {
        assert(split_fields(s) =~~= seq![s]);
    } else {
        lemma_split_no_space(s.drop_first());
        assert(seq![s[0]] + s.drop_first() =~= s);
        assert(split_fields(s) =~~= seq![s]);
    }
}

/// Splitting at the first space: the prefix becomes the first field and the
/// remainder splits on its own.
pub proof fn lemma_split_at_first_space(s: Seq<char>, i: int)
    requires
        0 <= i < s.len(),
        s[i] == ' ',
        forall|j: int| 0 <= j < i ==> s[j] != ' ',
    ensures
        split_fields(s) == seq![s.subrange(0, i)] + split_fields(
            s.subrange(i + 1, s.len() as int),
        ),
    decreases s.len(),
{
    if i == 0 {
        assert(s.subrange(0, 0) =~= Seq::<char>::empty());
        assert(s.subrange(1, s.len() as int) =~= s.drop_first());
        assert(split_fields(s) =~~= seq![s.subrange(0, 0)] + split_fields(
            s.subrange(1, s.len() as int),
        ));
    } else {
        let d = s.drop_first();
        assert(d[i - 1] == ' ');
        assert(forall|j: int| 0 <= j < i - 1 ==> d[j] != ' ');
        lemma_split_at_first_space(d, i - 1);
        assert(d.subrange(0, i - 1) =~= s.subrange(1, i));
        assert(d.subrange(i, d.len() as int) =~= s.subrange(i + 1, s.len() as int));
        let rest = split_fields(d);
        assert(rest == seq![s.subrange(1, i)] + split_fields(s.subrange(i + 1, s.len() as int)));
        assert(rest[0] == s.subrange(1, i));
        assert(seq![s[0]] + s.subrange(1, i) =~= s.subrange(0, i));
        assert(rest.drop_first() =~= split_fields(s.subrange(i + 1, s.len() as int)));
        assert(split_fields(s) =~~= seq![s.subrange(0, i)] + split_fields(
            s.subrange(i + 1, s.len() as int),
        ));
    }
}

/// Splitting always yields at least one field.
pub proof fn lemma_split_len(s: Seq<char>)
    ensures
        split_fields(s).len() >= 1,
    decreases s.len(),
{
    if s.len() > 0 && s[0] != ' ' {
        lemma_split_len(s.drop_first());
    }
}

/// Joining space-free fields and splitting again gives the fields back.
pub proof fn lemma_split_join(ts: Seq<Seq<char>>)
    requires
        ts.len() >= 1,
        forall|i: int| 0 <= i < ts.len() ==> !ts[i].contains(' '),
    ensures
        split_fields(join_fields(ts)) == ts,
    decreases ts.len(),
{
    if ts.len() == 1 {
        assert(forall|j: int| 0 <= j < ts[0].len() ==> ts[0][j] != ' ');
        lemma_split_no_space(ts[0]);
        assert(split_fields(join_fields(ts)) =~~= ts);
    } else {
        let s = join_fields(ts);
        let head = ts[0];
        let tail = join_fields(ts.drop_first());
        assert(s == head + seq![' '] + tail);
        assert(forall|j: int| 0 <= j < head.len() ==> head[j] != ' ');
        let i = head.len() as int;
        assert(s[i] == ' ');
        assert(forall|j: int| 0 <= j < i ==> s[j] == head[j] && s[j] != ' ');
        lemma_split_at_first_space(s, i);
        assert(s.subrange(0, i) =~= head);
        assert(s.subrange(i + 1, s.len() as int) =~= tail);
        lemma_split_join(ts.drop_first());
        assert(split_fields(s) =~~= ts);
    }
}

/// Every keyword is itself a valid token.
pub proof fn lemma_keywords_are_tokens()
    ensures
        is_token(kw_get()),
        is_token(kw_set()),
        is_token(kw_mset()),
        is_token(kw_incr()),
        is_token(kw_list()),
        is_token(kw_exit()),
{
    assert(is_token(kw_get()));
    assert(is_token(kw_set()));
    assert(is_token(kw_mset()));
    assert(is_token(kw_incr()));
    assert(is_token(kw_list()));
    assert(is_token(kw_exit()));
}

/// A token never holds a space.
pub proof fn lemma_token_no_space(t: Seq<char>)
    requires
        is_token(t),
    ensures
        !t.contains(' '),
{
    if t.contains(' ') {
        let i = choose|i: int| 0 <= i < t.len() && t[i] == ' ';
        assert(is_token_char(t[i]));
    }
}

/// A case variant of a token never holds a space either.
pub proof fn lemma_ci_no_space(t: Seq<char>, kw: Seq<char>)
    requires
        ci_eq(t, kw),
        is_token(kw),
    ensures
        !t.contains(' '),
{
    if t.contains(' ') {
        let i = choose|i: int| 0 <= i < t.len() && t[i] == ' ';
        assert(char_ci_eq(t[i], kw[i]));
        assert(is_token_char(kw[i]));
    }
}

/// Law: a `get` keyword in any letter case, one space, and a key token parse
/// to `Get` of exactly that key.
pub proof fn lemma_parse_get_line(kw: Seq<char>, key: Seq<char>)
    requires
        ci_eq(kw, kw_get()),
        is_token(key),
    ensures
        command_of_line(kw + seq![' '] + key) == Some(CommandModel::Get(key)),
{
    let ts = seq![kw, key];
    lemma_keywords_are_tokens();
    lemma_ci_no_space(kw, kw_get());
    lemma_token_no_space(key);
    assert(join_fields(ts.drop_first()) == key);
    assert(join_fields(ts) =~= kw + seq![' '] + key);
    lemma_split_join(ts);
}

/// Law: a `set` keyword in any letter case, a key token and a value token
/// parse to `Put` of exactly that pair.
pub proof fn lemma_parse_set_line(kw: Seq<char>, key: Seq<char>, value: Seq<char>)
    requires
        ci_eq(kw, kw_set()),
        is_token(key),
        is_token(value),
    ensures
        command_of_line(kw + seq![' '] + key + seq![' '] + value) == Some(
            CommandModel::Put(key, value),
        ),
{
    let ts = seq![kw, key, value];
    lemma_keywords_are_tokens();
    lemma_ci_no_space(kw, kw_set());
    lemma_token_no_space(key);
    lemma_token_no_space(value);
    assert(ts.drop_first().drop_first() =~= seq![value]);
    assert(join_fields(ts.drop_first().drop_first()) == value);
    assert(join_fields(ts.drop_first()) =~= key + seq![' '] + value);
    assert(join_fields(ts) =~= kw + seq![' '] + key + seq![' '] + value);
    lemma_split_join(ts);
}

/// Law: an `incr` keyword in any letter case and a key token parse to
/// `Increment` of exactly that key.
pub proof fn lemma_parse_incr_line(kw: Seq<char>, key: Seq<char>)
    requires
        ci_eq(kw, kw_incr()),
        is_token(key),
    ensures
        command_of_line(kw + seq![' '] + key) == Some(CommandModel::Increment(key)),
{
    let ts = seq![kw, key];
    lemma_keywords_are_tokens();
    lemma_ci_no_space(kw, kw_incr());
    lemma_token_no_space(key);
    assert(join_fields(ts.drop_first()) == key);
    assert(join_fields(ts) =~= kw + seq![' '] + key);
    lemma_split_join(ts);
}

/// Law: a `list` keyword in any letter case, alone on the line, parses to
/// `List`.
pub proof fn lemma_parse_list_line(kw: Seq<char>)
    requires
        ci_eq(kw, kw_list()),
    ensures
        command_of_line(kw) == Some(CommandModel::List),
{
    lemma_keywords_are_tokens();
    lemma_ci_no_space(kw, kw_list());
    lemma_split_join(seq![kw]);
    assert(join_fields(seq![kw]) == kw);
}

/// Law: an `exit` keyword in any letter case, alone on the line, parses to
/// `Exit`.
pub proof fn lemma_parse_exit_line(kw: Seq<char>)
    requires
        ci_eq(kw, kw_exit()),
    ensures
        command_of_line(kw) == Some(CommandModel::Exit),
{
    lemma_keywords_are_tokens();
    lemma_ci_no_space(kw, kw_exit());
    lemma_split_join(seq![kw]);
    assert(join_fields(seq![kw]) == kw);
    assert(char_ci_eq(kw[0], kw_exit()[0]));
    if ci_eq(kw, kw_list()) {
        assert(char_ci_eq(kw[0], kw_list()[0]));
        assert(false);
    }
}

/// The fields an `mset` argument list contributes: keys and values
/// alternating, key first.
pub open spec fn pairs_fields(ps: Seq<(Seq<char>, Seq<char>)>) -> Seq<Seq<char>> {
    Seq::new(2 * ps.len(), |i: int| if i % 2 == 0 { ps[i / 2].0 } else { ps[i / 2].1 })
}

/// Law: an `mset` keyword in any letter case followed by one or more
/// key/value token pairs parses to `MSet` of exactly those pairs.
pub proof fn lemma_parse_mset_line(kw: Seq<char>, ps: Seq<(Seq<char>, Seq<char>)>)
    requires
        ci_eq(kw, kw_mset()),
        ps.len() >= 1,
        forall|i: int| 0 <= i < ps.len() ==> is_token(ps[i].0) && is_token(ps[i].1),
    ensures
        command_of_line(join_fields(seq![kw] + pairs_fields(ps))) == Some(CommandModel::MSet(ps)),
{
    let ts = seq![kw] + pairs_fields(ps);
    lemma_keywords_are_tokens();
    lemma_ci_no_space(kw, kw_mset());
    assert forall|i: int| 0 <= i < ts.len() implies !ts[i].contains(' ') by {
        if i >= 1 {
            let j = i - 1;
            if j % 2 == 0 {
                assert(ts[i] == ps[j / 2].0);
                lemma_token_no_space(ps[j / 2].0);
            } else {
                assert(ts[i] == ps[j / 2].1);
                lemma_token_no_space(ps[j / 2].1);
            }
        }
    }
    lemma_split_join(ts);
    assert forall|i: int| 1 <= i < ts.len() implies is_token(ts[i]) by {
        let j = i - 1;
        if j % 2 == 0 {
            assert(ts[i] == ps[j / 2].0);
        } else {
            assert(ts[i] == ps[j / 2].1);
        }
    }
    assert(ts.len() == 1 + 2 * ps.len());
    assert(ts.len() % 2 == 1);
    assert forall|j: int| 0 <= j < ps.len() implies mset_pairs(ts)[j] == ps[j] by {
        assert(ts[1 + 2 * j] == ps[j].0);
        assert(ts[2 + 2 * j] == ps[j].1);
    }
    assert(mset_pairs(ts) =~~= ps);
}

/// Index of the first ASCII space in a line, if there is one.
fn find_space(s: &str) -> (r: Option<usize>)
    ensures
        match r {
            Some(i) => i < s@.len() && s@[i as int] == ' ' && (forall|j: int|
                0 <= j < i ==> s@[j] != ' '),
            None => forall|j: int| 0 <= j < s@.len() ==> s@[j] != ' ',
        },
{
    let n = s.unicode_len();
    let mut i: usize = 0;
    while i < n
        invariant
            n == s@.len(),
            0 <= i <= n,
            forall|j: int| 0 <= j < i ==> s@[j] != ' ',
        decreases n - i,
    {
        if s.get_char(i) == ' ' {
            return Some(i);
        }
        i = i + 1;
    }
    None
}

/// The fields of a line, split at single spaces.
fn split_line<'a>(s: &'a str) -> (r: Vec<&'a str>)
    ensures
        r.deep_view() == split_fields(s@),
    decreases s@.len(),
{
    match find_space(s) {
        None => {
            let mut v: Vec<&'a str> = Vec::new();
            v.push(s);
            proof {
                lemma_split_no_space(s@);
                assert(v.deep_view() =~~= seq![s@]);
            }
            v
        },
        Some(i) => {
            let n = s.unicode_len();
            let head = s.substring_char(0, i);
            let tail = s.substring_char(i + 1, n);
            let mut rest = split_line(tail);
            rest.insert(0, head);
            proof {
                lemma_split_at_first_space(s@, i as int);
                assert(rest.deep_view() =~~= seq![s@.subrange(0, i as int)] + split_fields(
                    s@.subrange(i + 1, s@.len() as int),
                ));
            }
            rest
        },
    }
}

/// Whether a field is a valid argument token.
fn is_token_str(t: &str) -> (r: bool)
    ensures
        r == is_token(t@),
{
    let n = t.unicode_len();
    if n == 0 {
        return false;
    }
    let mut i: usize = 0;
    while i < n
        invariant
            n == t@.len(),
            0 <= i <= n,
            forall|j: int| 0 <= j < i ==> is_token_char(t@[j]),
        decreases n - i,
    {
        let u = t.get_char(i) as u32;
        if !((48 <= u && u <= 57) || (65 <= u && u <= 90) || (97 <= u && u <= 122)) {
            assert(!is_token_char(t@[i as int]));
            return false;
        }
        i = i + 1;
    }
    true
}

/// Case-insensitive comparison of a field with a keyword.
fn keyword_matches(t: &str, kw: &str) -> (r: bool)
    ensures
        r == ci_eq(t@, kw@),
{
    let tn = t.unicode_len();
    let kn = kw.unicode_len();
    if tn != kn {
        return false;
    }
    let mut i: usize = 0;
    while i < tn
        invariant
            tn == t@.len(),
            tn == kw@.len(),
            0 <= i <= tn,
            forall|j: int| 0 <= j < i ==> char_ci_eq(t@[j], kw@[j]),
        decreases tn - i,
    {
        let a = t.get_char(i) as u32;
        let b = kw.get_char(i) as u32;
        if !(a == b || (65 <= a && a <= 90 && a + 32 == b) || (65 <= b && b <= 90 && b + 32 == a)) {
            assert(!char_ci_eq(t@[i as int], kw@[i as int]));
            return false;
        }
        i = i + 1;
    }
    true
}

/// Parses one line into a command.
///
/// Returns the command the grammar assigns to the line, and `None` exactly
/// when the line matches no form.
#[verifier::loop_isolation(false)]
pub fn parse_command(input: &str) -> (r: Option<Command>)
    ensures
        match r {
            Some(c) => command_of_line(input@) == Some(c@),
            None => command_of_line(input@) is None,
        },
{
    proof {
        reveal_strlit("get");
        reveal_strlit("set");
        reveal_strlit("mset");
        reveal_strlit("incr");
        reveal_strlit("list");
        reveal_strlit("exit");
        assert("get"@ =~= kw_get());
        assert("set"@ =~= kw_set());
        assert("mset"@ =~= kw_mset());
        assert("incr"@ =~= kw_incr());
        assert("list"@ =~= kw_list());
        assert("exit"@ =~= kw_exit());
    }
    let ghost ts = split_fields(input@);
    let fields = split_line(input);
    proof {
        lemma_split_len(input@);
        assert(fields@.len() == ts.len());
        assert(forall|j: int| 0 <= j < ts.len() ==> fields@[j]@ == #[trigger] ts[j]);
    }
    let head = fields[0];
    if keyword_matches(head, "get") && fields.len() == 2 && is_token_str(fields[1]) {
        return Some(Command::Get(fields[1].to_owned()));
    }
    if keyword_matches(head, "set") && fields.len() == 3 && is_token_str(fields[1]) && is_token_str(
        fields[2],
    ) {
        let kv = KeyValue { key: fields[1].to_owned(), value: fields[2].to_owned() };
        return Some(Command::Put(kv));
    }
    if keyword_matches(head, "mset") && fields.len() >= 3 && fields.len() % 2 == 1 {
        let mut i: usize = 1;
        while i < fields.len()
            invariant
                1 <= i <= fields.len(),
                forall|j: int| 1 <= j < i ==> is_token(ts[j]),
            decreases fields.len() - i,
        {
            if !is_token_str(fields[i]) {
                assert(!is_token(ts[i as int]));
                return None;
            }
            i = i + 1;
        }
        let mut kvs: Vec<KeyValue> = Vec::new();
        let mut i: usize = 1;
        while i < fields.len()
            invariant
                1 <= i <= fields.len() + 1,
                i % 2 == 1,
                kvs@.map_values(|kv: KeyValue| kv@) =~= Seq::new(
                    ((i - 1) / 2) as nat,
                    |j: int| (ts[1 + 2 * j], ts[2 + 2 * j]),
                ),
            decreases fields.len() - i,
        {
            assert(i + 1 < fields@.len());
            let ghost prev = kvs@;
            let kv = KeyValue { key: fields[i].to_owned(), value: fields[i + 1].to_owned() };
            kvs.push(kv);
            proof {
                let f = |kv: KeyValue| kv@;
                let target = Seq::new(((i + 1) / 2) as nat, |j: int| (ts[1 + 2 * j], ts[2 + 2 * j]));
                assert(prev.map_values(f).len() == prev.len());
                assert forall|j: int| 0 <= j < (i + 1) / 2 implies kvs@.map_values(f)[j] == target[j]
                by {
                    if j < (i as int - 1) / 2 {
                        assert(kvs@[j] == prev[j]);
                        assert(kvs@.map_values(f)[j] == prev.map_values(f)[j]);
                    } else {
                        assert(j == (i as int - 1) / 2);
                        assert(1 + 2 * j == i as int);
                        assert(kvs@.map_values(f)[j] == f(kv));
                    }
                }
                assert(kvs@.map_values(f) =~= target);
            }
            i = i + 2;
        }
        let r = Command::MSet(kvs);
        proof {
            assert(kvs@.map_values(|kv: KeyValue| kv@) =~~= mset_pairs(ts));
        }
        return Some(r);
    }
    if keyword_matches(head, "incr") && fields.len() == 2 && is_token_str(fields[1]) {
        return Some(Command::Increment(fields[1].to_owned()));
    }
    if keyword_matches(head, "list") && fields.len() == 1 {
        return Some(Command::List);
    }
    if keyword_matches(head, "exit") && fields.len() == 1 {
        return Some(Command::Exit);
    }
    None
}

} // verus!
