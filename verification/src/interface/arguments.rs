use vstd::prelude::*;

use crate::util::errors::InputError;
use crate::util::push_char;

verus! {

// ---------------------------------------------------------------------------
// Lists used as maps and sets of names
// ---------------------------------------------------------------------------

/// No two entries have the same name.
pub open spec fn distinct_keys<T>(e: Seq<(String, T)>) -> bool {
    forall|i: int, j: int| 0 <= i < e.len() && 0 <= j < e.len() && i != j ==> (#[trigger] e[i]).0@ != (#[trigger] e[j]).0@
}

/// The map from the names of the entries to their values.
pub open spec fn entry_map<T>(e: Seq<(String, T)>) -> Map<Seq<char>, T>
    decreases e.len(),
{
    if e.len() == 0 {
        Map::empty()
    } else {
        entry_map(e.drop_last()).insert(e.last().0@, e.last().1)
    }
}

/// The map holds exactly the names of the entries; with distinct names, each with its value.
pub proof fn lemma_entry_map<T>(e: Seq<(String, T)>)
    ensures
        forall|k: Seq<char>| #[trigger] entry_map(e).contains_key(k) <==> exists|i: int| 0 <= i < e.len() && (#[trigger] e[i]).0@ == k,
        distinct_keys(e) ==> forall|i: int| 0 <= i < e.len() ==> #[trigger] entry_map(e)[e[i].0@] == e[i].1,
    decreases e.len(),
{
    if e.len() > 0 {
        let p = e.drop_last();
        lemma_entry_map(p);
        assert forall|k: Seq<char>| #[trigger] entry_map(e).contains_key(k) <==> exists|i: int| 0 <= i < e.len() && (#[trigger] e[i]).0@ == k by {
            if entry_map(e).contains_key(k) && k != e.last().0@ {
                assert(entry_map(p).contains_key(k));
                let i = choose|i: int| 0 <= i < p.len() && (#[trigger] p[i]).0@ == k;
                assert(e[i] == p[i]);
            }
            if k == e.last().0@ {
                assert(e[e.len() - 1] == e.last());
            }
            if exists|i: int| 0 <= i < e.len() && (#[trigger] e[i]).0@ == k {
                let i = choose|i: int| 0 <= i < e.len() && (#[trigger] e[i]).0@ == k;
                if i < p.len() {
                    assert(p[i] == e[i]);
                    assert(entry_map(p).contains_key(k));
                }
            }
        }
        if distinct_keys(e) {
            assert forall|i: int, j: int| 0 <= i < p.len() && 0 <= j < p.len() && i != j implies (#[trigger] p[i]).0@ != (#[trigger] p[j]).0@ by {
                assert(e[i] == p[i] && e[j] == p[j]);
            }
            assert forall|i: int| 0 <= i < e.len() implies #[trigger] entry_map(e)[e[i].0@] == e[i].1 by {
                if i < p.len() {
                    assert(e[i] == p[i]);
                    assert(e[e.len() - 1] == e.last());
                    assert(e[i].0@ != e[e.len() - 1].0@);
                    assert(entry_map(p)[p[i].0@] == p[i].1);
                }
            }
        }
    }
}

/// The index of the entry with the given name, if there is one.
fn find_index<T>(e: &Vec<(String, T)>, k: &String) -> (r: Option<usize>)
    ensures
        match r {
            Some(i) => i < e@.len() && e@[i as int].0@ == k@,
            None => forall|i: int| 0 <= i < e@.len() ==> (#[trigger] e@[i]).0@ != k@,
        },
{
    let mut i: usize = 0;
    while i < e.len()
        invariant
            i <= e@.len(),
            forall|j: int| 0 <= j < i ==> (#[trigger] e@[j]).0@ != k@,
        decreases e@.len() - i,
    {
        if e[i].0 == *k {
            return Some(i);
        }
        i += 1;
    }
    None
}

/// Gives a name a value: replaces the value of the entry with that name, or adds an entry.
fn put<T>(e: &mut Vec<(String, T)>, k: String, v: T)
    requires
        distinct_keys(old(e)@),
    ensures
        distinct_keys(final(e)@),
        entry_map(final(e)@) == entry_map(old(e)@).insert(k@, v),
        !entry_map(old(e)@).contains_key(k@) ==> final(e)@ == old(e)@.push((k, v)),
{
    proof { lemma_entry_map(old(e)@); }
    match find_index(e, &k) {
        Some(i) => {
            let ghost kv = k@;
            e.set(i, (k, v));
            proof {
                lemma_entry_map(e@);
                assert(distinct_keys(e@)) by {
                    assert forall|a: int, b: int| 0 <= a < e@.len() && 0 <= b < e@.len() && a != b implies (#[trigger] e@[a]).0@ != (#[trigger] e@[b]).0@ by {
                        if a != i && b != i {
                            assert(e@[a] == old(e)@[a] && e@[b] == old(e)@[b]);
                        } else if a == i {
                            assert(e@[b] == old(e)@[b]);
                        } else {
                            assert(e@[a] == old(e)@[a]);
                        }
                    }
                }
                lemma_entry_map(e@);
                assert forall|key: Seq<char>| #[trigger] entry_map(e@).contains_key(key) <==> entry_map(old(e)@).insert(kv, v).contains_key(key) by {
                    if exists|j: int| 0 <= j < e@.len() && (#[trigger] e@[j]).0@ == key {
                        let j = choose|j: int| 0 <= j < e@.len() && (#[trigger] e@[j]).0@ == key;
                        if j != i {
                            assert(old(e)@[j] == e@[j]);
                        }
                    }
                    if exists|j: int| 0 <= j < old(e)@.len() && (#[trigger] old(e)@[j]).0@ == key {
                        let j = choose|j: int| 0 <= j < old(e)@.len() && (#[trigger] old(e)@[j]).0@ == key;
                        if j != i {
                            assert(old(e)@[j] == e@[j]);
                        } else {
                            assert(e@[i as int].0@ == key);
                        }
                    }
                    if key == kv {
                        assert(e@[i as int].0@ == key);
                    }
                }
                assert forall|key: Seq<char>| #[trigger] entry_map(e@).contains_key(key) implies entry_map(e@)[key] == entry_map(old(e)@).insert(kv, v)[key] by {
                    let j = choose|j: int| 0 <= j < e@.len() && (#[trigger] e@[j]).0@ == key;
                    assert(entry_map(e@)[e@[j].0@] == e@[j].1);
                    if j != i {
                        assert(old(e)@[j] == e@[j]);
                        assert(entry_map(old(e)@)[old(e)@[j].0@] == old(e)@[j].1);
                    }
                }
                assert(entry_map(e@) =~= entry_map(old(e)@).insert(kv, v));
            }
        },
        None => {
            e.push((k, v));
            proof {
                assert(e@.drop_last() =~= old(e)@);
                assert forall|a: int, b: int| 0 <= a < e@.len() && 0 <= b < e@.len() && a != b implies (#[trigger] e@[a]).0@ != (#[trigger] e@[b]).0@ by {
                    if a < old(e)@.len() && b < old(e)@.len() {
                        assert(e@[a] == old(e)@[a] && e@[b] == old(e)@[b]);
                    } else if a < old(e)@.len() {
                        assert(e@[a] == old(e)@[a]);
                    } else {
                        assert(e@[b] == old(e)@[b]);
                    }
                }
            }
        },
    }
}

/// The names of a list of texts.
pub open spec fn name_set(v: Seq<String>) -> Set<Seq<char>> {
    Set::new(|k: Seq<char>| exists|i: int| 0 <= i < v.len() && (#[trigger] v[i])@ == k)
}

/// Adds a name to a list of names, unless it is there.
fn add_name(v: &mut Vec<String>, k: String)
    ensures
        name_set(final(v)@) == name_set(old(v)@).insert(k@),
{
    let mut i: usize = 0;
    while i < v.len()
        invariant
            i <= v@.len(),
            v@ == old(v)@,
            forall|j: int| 0 <= j < i ==> (#[trigger] v@[j])@ != k@,
        decreases v@.len() - i,
    {
        if v[i] == k {
            assert(name_set(v@) =~= name_set(v@).insert(k@));
            return;
        }
        i += 1;
    }
    let ghost kv = k@;
    v.push(k);
    assert forall|key: Seq<char>| #[trigger] name_set(v@).contains(key) <==> name_set(old(v)@).insert(kv).contains(key) by {
        if name_set(v@).contains(key) {
            let j = choose|j: int| 0 <= j < v@.len() && (#[trigger] v@[j])@ == key;
            if j < old(v)@.len() {
                assert(old(v)@[j] == v@[j]);
            }
        }
        if name_set(old(v)@).contains(key) {
            let j = choose|j: int| 0 <= j < old(v)@.len() && (#[trigger] old(v)@[j])@ == key;
            assert(v@[j] == old(v)@[j]);
        }
        if key == kv {
            assert(v@[v@.len() - 1]@ == kv);
        }
    }
    assert(name_set(v@) =~= name_set(old(v)@).insert(kv));
}

/// Takes a name out of a list of names.
fn remove_name(v: &mut Vec<String>, k: &String)
    ensures
        name_set(final(v)@) == name_set(old(v)@).remove(k@),
{
    let mut kept: Vec<String> = Vec::new();
    let mut i: usize = 0;
    while i < v.len()
        invariant
            i <= v@.len(),
            forall|j: int| 0 <= j < kept@.len() ==> (#[trigger] kept@[j])@ != k@,
            name_set(kept@) == name_set(v@.take(i as int)).remove(k@),
        decreases v@.len() - i,
    {
        let ghost before = kept@;
        if !(v[i] == *k) {
            kept.push(v[i].clone());
        }
        proof {
            let t = v@.take(i + 1);
            assert(t.drop_last() =~= v@.take(i as int));
            assert forall|key: Seq<char>| #[trigger] name_set(kept@).contains(key) <==> name_set(t).remove(k@).contains(key) by {
                if name_set(kept@).contains(key) {
                    let j = choose|j: int| 0 <= j < kept@.len() && (#[trigger] kept@[j])@ == key;
                    if j < before.len() {
                        assert(before[j] == kept@[j]);
                        assert(name_set(before).contains(key));
                        let m = choose|m: int| 0 <= m < i && (#[trigger] v@.take(i as int)[m])@ == key;
                        assert(t[m] == v@.take(i as int)[m]);
                    } else {
                        assert(t[i as int] == v@[i as int]);
                    }
                }
                if name_set(t).remove(k@).contains(key) {
                    let m = choose|m: int| 0 <= m < t.len() && (#[trigger] t[m])@ == key;
                    if m < i {
                        assert(v@.take(i as int)[m] == t[m]);
                        assert(name_set(before).contains(key));
                        let j = choose|j: int| 0 <= j < before.len() && (#[trigger] before[j])@ == key;
                        assert(kept@[j] == before[j]);
                    } else {
                        assert(kept@[kept@.len() - 1]@ == key);
                    }
                }
            }
            assert(name_set(kept@) =~= name_set(t).remove(k@));
        }
        i += 1;
    }
    assert(v@.take(v@.len() as int) =~= v@);
    *v = kept;
}

/// Whether a list of names holds a name.
fn has_name(v: &Vec<String>, k: &String) -> (b: bool)
    ensures
        b == name_set(v@).contains(k@),
{
    let mut i: usize = 0;
    while i < v.len()
        invariant
            i <= v@.len(),
            forall|j: int| 0 <= j < i ==> (#[trigger] v@[j])@ != k@,
        decreases v@.len() - i,
    {
        if v[i] == *k {
            return true;
        }
        i += 1;
    }
    false
}

fn copy_strings(v: &Vec<String>) -> (r: Vec<String>)
    ensures
        r@.len() == v@.len(),
        forall|i: int| 0 <= i < v@.len() ==> (#[trigger] r@[i])@ == v@[i]@,
{
    let mut r: Vec<String> = Vec::new();
    let mut i: usize = 0;
    while i < v.len()
        invariant
            i <= v@.len(),
            r@.len() == i,
            forall|j: int| 0 <= j < i ==> (#[trigger] r@[j])@ == v@[j]@,
        decreases v@.len() - i,
    {
        r.push(v[i].clone());
        i += 1;
    }
    r
}

/// The texts of a list of strings.
pub open spec fn texts(v: Seq<String>) -> Seq<Seq<char>> {
    v.map_values(|s: String| s@)
}

// ---------------------------------------------------------------------------
// Parsed arguments
// ---------------------------------------------------------------------------

/// The values given to named and positional arguments, and the flags set.
pub struct Arguments {
    pub args: Vec<(String, String)>,
    pub nargs: Vec<(String, Vec<String>)>,
    pub flags: Vec<String>,
}

impl Arguments {
    /// The arguments with a single value, by name.
    pub open spec fn arg_map(self) -> Map<Seq<char>, Seq<char>> {
        entry_map(self.args@).map_values(|s: String| s@)
    }

    /// The arguments with several values, by name.
    pub open spec fn narg_map(self) -> Map<Seq<char>, Seq<Seq<char>>> {
        entry_map(self.nargs@).map_values(|v: Vec<String>| texts(v@))
    }

    /// The flags set.
    pub open spec fn flag_set(self) -> Set<Seq<char>> {
        name_set(self.flags@)
    }

    /// Each name occurs once.
    pub open spec fn wf(self) -> bool {
        distinct_keys(self.args@) && distinct_keys(self.nargs@)
    }

    pub fn new() -> (a: Self)
        ensures
            a.wf(),
            a.arg_map() == Map::<Seq<char>, Seq<char>>::empty(),
            a.narg_map() == Map::<Seq<char>, Seq<Seq<char>>>::empty(),
            a.flag_set() == Set::<Seq<char>>::empty(),
    {
        let a = Arguments { args: Vec::new(), nargs: Vec::new(), flags: Vec::new() };
        assert(a.arg_map() =~= Map::<Seq<char>, Seq<char>>::empty());
        assert(a.narg_map() =~= Map::<Seq<char>, Seq<Seq<char>>>::empty());
        assert(a.flag_set() =~= Set::<Seq<char>>::empty());
        a
    }

    pub fn get_arg(&self, name: &str) -> (r: Option<String>)
        requires
            self.wf(),
        ensures
            self.arg_map().contains_key(name@) ==> (r matches Some(s) && s@ == self.arg_map()[name@]),
            !self.arg_map().contains_key(name@) ==> r is None,
    {
        let key = String::from_str(name);
        proof { lemma_entry_map(self.args@); }
        match find_index(&self.args, &key) {
            Some(i) => Some(self.args[i].1.clone()),
            None => None,
        }
    }

    pub fn get_narg(&self, name: &str) -> (r: Option<Vec<String>>)
        requires
            self.wf(),
        ensures
            self.narg_map().contains_key(name@) ==> (r matches Some(v) && texts(v@) == self.narg_map()[name@]),
            !self.narg_map().contains_key(name@) ==> r is None,
    {
        let key = String::from_str(name);
        proof { lemma_entry_map(self.nargs@); }
        match find_index(&self.nargs, &key) {
            Some(i) => {
                let v = copy_strings(&self.nargs[i].1);
                assert(texts(v@) =~= texts(self.nargs@[i as int].1@));
                Some(v)
            },
            None => None,
        }
    }

    pub fn get_flag(&self, name: &str) -> (b: bool)
        ensures
            b == self.flag_set().contains(name@),
    {
        let key = String::from_str(name);
        has_name(&self.flags, &key)
    }
}

// ---------------------------------------------------------------------------
// Parsers
// ---------------------------------------------------------------------------

/// An argument a parser knows: its name, whether it must be given, its keys, and whether it
/// takes several values or none.
pub struct Argument {
    pub name: String,
    pub is_required: bool,
    pub keys: Vec<String>,
    pub is_narg: bool,
    pub is_flag: bool,
}

/// Whether two arguments are the same.
pub open spec fn same_argument(a: Argument, b: Argument) -> bool {
    &&& a.name@ == b.name@
    &&& a.is_required == b.is_required
    &&& texts(a.keys@) == texts(b.keys@)
    &&& a.is_narg == b.is_narg
    &&& a.is_flag == b.is_flag
}

fn copy_argument(a: &Argument) -> (r: Argument)
    ensures
        same_argument(r, *a),
{
    let keys = copy_strings(&a.keys);
    assert(texts(keys@) =~= texts(a.keys@));
    Argument { name: a.name.clone(), is_required: a.is_required, keys: keys, is_narg: a.is_narg, is_flag: a.is_flag }
}

/// What a parse gives: a subcommand with what its own parser gave, or the arguments.
pub enum ParsedArgs {
    SubCommand(SubCommand),
    Arguments(Arguments),
}

/// A subcommand and the arguments given to it.
pub struct SubCommand {
    pub name: String,
    pub args: Box<ParsedArgs>,
}

/// A parse's result as texts: a subcommand with its name and result, or the single values,
/// the lists of values and the flags given.
pub enum ParsedView {
    SubCommand(Seq<char>, Box<ParsedView>),
    Arguments(Map<Seq<char>, Seq<char>>, Map<Seq<char>, Seq<Seq<char>>>, Set<Seq<char>>),
}

/// A parse: what it gave, or the message of the error it raised.
pub enum ParseOutcome {
    Parsed(ParsedView),
    Failed(Seq<char>),
}

impl ParsedArgs {
    /// What the parse gave, as texts.
    pub open spec fn parsed_view(self) -> ParsedView
        decreases self,
    {
        match self {
            ParsedArgs::SubCommand(s) => ParsedView::SubCommand(s.name@, Box::new((*s.args).parsed_view())),
            ParsedArgs::Arguments(a) => ParsedView::Arguments(a.arg_map(), a.narg_map(), a.flag_set()),
        }
    }
}

/// The state of a parse: the words left, the required arguments not yet given, and the values
/// and flags given so far.
pub struct ParseState {
    pub tokens: Seq<Seq<char>>,
    pub required: Set<Seq<char>>,
    pub args: Map<Seq<char>, Seq<char>>,
    pub nargs: Map<Seq<char>, Seq<Seq<char>>>,
    pub flags: Set<Seq<char>>,
}

/// The parse of the named arguments: the state reached, or the message of an error.
pub enum NamedOutcome {
    Parsed(ParseState),
    Failed(Seq<char>),
}

/// Splits a line into words as a Unix shell does, as `shell_words::split` does it.
pub uninterp spec fn shell_split(line: Seq<char>) -> Option<Seq<Seq<char>>>;

/// Writes words as one line, each quoted for a Unix shell, as `shell_words::join` does it.
pub uninterp spec fn shell_join(words: Seq<Seq<char>>) -> Seq<char>;

/// `shell_words::ParseError`, the error of a line whose quote is not closed; opaque here.
#[verifier::external_type_specification]
#[verifier::external_body]
pub struct ExParseError(shell_words::ParseError);

/// `shell_words::split`: the words of the line when its quotes are closed, an error otherwise.
#[verifier::external_body]
fn split_words(line: &str) -> (r: Result<Vec<String>, shell_words::ParseError>)
    ensures
        match r {
            Ok(v) => shell_split(line@) == Some(texts(v@)),
            Err(_) => shell_split(line@) is None,
        },
{
    shell_words::split(line)
}

/// The text of `shell_words::ParseError` (its `Display` writes "missing closing quote").
#[verifier::external_body]
fn parse_error_text(e: &shell_words::ParseError) -> (s: String)
    ensures
        s@ == "missing closing quote"@,
{
    e.to_string()
}

/// `shell_words::join`: the words written as one line, each quoted for a Unix shell.
#[verifier::external_body]
fn join_words(words: &Vec<String>) -> (s: String)
    ensures
        s@ == shell_join(texts(words@)),
{
    shell_words::join(words)
}

/// Parses lines of words into subcommands, positional and named arguments and flags.
pub struct ArgumentParser {
    pub sub_commands: Vec<(String, ArgumentParser)>,
    pub required: Vec<String>,
    pub positional: Vec<Argument>,
    pub named: Vec<(String, Argument)>,
    pub keys: Vec<(String, String)>,
}

/// The message of a split that fails.
pub open spec fn split_failure() -> Seq<char> {
    "Could not parse input into valid argments: "@ + "missing closing quote"@
}

impl ArgumentParser {
    /// The names of the entries are distinct, here and in every subcommand's parser.
    pub open spec fn wf(self) -> bool
        decreases self,
    {
        &&& distinct_keys(self.sub_commands@)
        &&& distinct_keys(self.named@)
        &&& distinct_keys(self.keys@)
        &&& forall|i: int| 0 <= i < self.sub_commands@.len() ==> (#[trigger] self.sub_commands@[i]).1.wf()
    }

    /// Whether a word is the key of a named argument or flag.
    pub open spec fn is_key(self, w: Seq<char>) -> bool {
        entry_map(self.keys@).contains_key(w)
    }

    /// The argument a key belongs to.
    pub open spec fn key_target(self, w: Seq<char>) -> Seq<char> {
        entry_map(self.keys@)[w]@
    }

    /// The index of the subcommand with the given name, -1 when there is none.
    pub open spec fn sub_index(self, w: Seq<char>) -> int {
        if exists|i: int| 0 <= i < self.sub_commands@.len() && (#[trigger] self.sub_commands@[i]).0@ == w {
            choose|i: int| 0 <= i < self.sub_commands@.len() && (#[trigger] self.sub_commands@[i]).0@ == w
        } else {
            -1
        }
    }

    /// The values taken by a positional argument with several values: the words up to the
    /// next key, that key left out.
    pub open spec fn take_values(self, acc: Seq<Seq<char>>, rest: Seq<Seq<char>>) -> (Seq<Seq<char>>, Seq<Seq<char>>)
        decreases rest.len(),
    {
        if rest.len() == 0 {
            (acc, rest)
        } else if self.is_key(rest[0]) {
            (acc, rest.subrange(1, rest.len() as int))
        } else {
            self.take_values(acc.push(rest[0]), rest.subrange(1, rest.len() as int))
        }
    }

    /// The parse of the positional arguments from the `i`-th on: each takes the next word (or,
    /// with several values, the words up to the next key); an optional one stops at a key;
    /// the parse stops when the words run out. Gives the state and the index of the next
    /// positional argument, past the one where the parse stopped.
    pub open spec fn pos_phase(self, i: int, st: ParseState) -> (ParseState, int)
        decreases self.positional@.len() - i,
    {
        if i < 0 || i >= self.positional@.len() {
            (st, self.positional@.len() as int)
        } else if st.tokens.len() == 0 {
            (st, i + 1)
        } else {
            let parg = self.positional@[i];
            let name = parg.name@;
            let arg = st.tokens[0];
            let rest = st.tokens.subrange(1, st.tokens.len() as int);
            if !parg.is_narg {
                if parg.is_required {
                    self.pos_phase(i + 1, ParseState { tokens: rest, required: st.required.remove(name), args: st.args.insert(name, arg), ..st })
                } else if self.is_key(arg) {
                    (ParseState { tokens: rest, ..st }, i + 1)
                } else {
                    self.pos_phase(i + 1, ParseState { tokens: rest, args: st.args.insert(name, arg), ..st })
                }
            } else if parg.is_required || !self.is_key(arg) {
                let (vals, rest2) = self.take_values(seq![arg], rest);
                self.pos_phase(i + 1, ParseState {
                    tokens: rest2,
                    required: if parg.is_required { st.required.remove(name) } else { st.required },
                    nargs: st.nargs.insert(name, vals),
                    ..st
                })
            } else {
                self.pos_phase(i + 1, ParseState { tokens: rest, ..st })
            }
        }
    }

    /// The values taken by a named argument with several values: the words up to the next key
    /// after the first, that key left out.
    pub open spec fn named_values(self, tokens: Seq<Seq<char>>, did_one: bool, acc: Seq<Seq<char>>) -> (Seq<Seq<char>>, Seq<Seq<char>>)
        decreases tokens.len(),
    {
        if tokens.len() == 0 {
            (acc, tokens)
        } else if did_one && self.is_key(tokens[0]) {
            (acc, tokens.subrange(1, tokens.len() as int))
        } else {
            self.named_values(tokens.subrange(1, tokens.len() as int), true, acc.push(tokens[0]))
        }
    }

    pub proof fn lemma_named_values_len(self, tokens: Seq<Seq<char>>, did_one: bool, acc: Seq<Seq<char>>)
        ensures
            self.named_values(tokens, did_one, acc).1.len() <= tokens.len(),
        decreases tokens.len(),
    {
        if tokens.len() > 0 && !(did_one && self.is_key(tokens[0])) {
            self.lemma_named_values_len(tokens.subrange(1, tokens.len() as int), true, acc.push(tokens[0]));
        }
    }

    /// The parse of the named arguments: each word must be a key; a flag is set, an argument
    /// takes the next word, or with several values the words up to the next key.
    pub open spec fn named_phase(self, st: ParseState) -> NamedOutcome
        decreases st.tokens.len(),
    {
        if st.tokens.len() == 0 {
            NamedOutcome::Parsed(st)
        } else {
            let arg = st.tokens[0];
            let rest = st.tokens.subrange(1, st.tokens.len() as int);
            if !self.is_key(arg) {
                NamedOutcome::Failed("Unexpected argument encountered: "@ + arg + "."@)
            } else if !entry_map(self.named@).contains_key(self.key_target(arg)) {
                NamedOutcome::Failed("Could not find a known argument matching key "@ + arg + "."@)
            } else {
                let na = entry_map(self.named@)[self.key_target(arg)];
                let name = na.name@;
                if na.is_flag {
                    self.named_phase(ParseState { tokens: rest, flags: st.flags.insert(name), ..st })
                } else {
                    let req = if na.is_required { st.required.remove(name) } else { st.required };
                    if !na.is_narg {
                        if rest.len() == 0 {
                            NamedOutcome::Failed("No value was specified for named arg "@ + name + "."@)
                        } else {
                            self.named_phase(ParseState { tokens: rest.subrange(1, rest.len() as int), required: req,
                                args: st.args.insert(name, rest[0]), ..st })
                        }
                    } else {
                        let (vals, rest2) = self.named_values(rest, false, seq![]);
                        proof { self.lemma_named_values_len(rest, false, seq![]); }
                        if vals.len() == 0 {
                            NamedOutcome::Failed("No value was specified for named arg "@ + name + "."@)
                        } else {
                            self.named_phase(ParseState { tokens: rest2, required: req, nargs: st.nargs.insert(name, vals), ..st })
                        }
                    }
                }
            }
        }
    }

    /// The parse of a list of words: no words give no arguments; a first word naming a
    /// subcommand gives it, with its parser's parse of the other words joined into a line;
    /// otherwise the positional, then the named arguments are read, and every required
    /// argument must have been given.
    pub open spec fn parse_words_spec(self, ws: Seq<Seq<char>>) -> ParseOutcome
        decreases self, 0int,
    {
        if ws.len() == 0 {
            ParseOutcome::Parsed(ParsedView::Arguments(Map::empty(), Map::empty(), Set::empty()))
        } else if 0 <= self.sub_index(ws[0]) < self.sub_commands@.len() {
            let sp = self.sub_commands@[self.sub_index(ws[0])].1;
            proof {
                assert(decreases_to!(self => self.sub_commands));
                assert(decreases_to!(self.sub_commands => self.sub_commands@));
            }
            match sp.parse_line_spec(shell_join(ws.subrange(1, ws.len() as int))) {
                ParseOutcome::Parsed(v) => ParseOutcome::Parsed(ParsedView::SubCommand(ws[0], Box::new(v))),
                ParseOutcome::Failed(e) => ParseOutcome::Failed(e),
            }
        } else {
            let st0 = ParseState { tokens: ws, required: name_set(self.required@), args: Map::empty(), nargs: Map::empty(), flags: Set::empty() };
            let (st1, j) = self.pos_phase(0, st0);
            if 0 <= j < self.positional@.len() && self.positional@[j].is_required {
                ParseOutcome::Failed("Some required positional arguments were not provided."@)
            } else {
                match self.named_phase(st1) {
                    NamedOutcome::Failed(e) => ParseOutcome::Failed(e),
                    NamedOutcome::Parsed(st2) => if st2.required.is_empty() {
                        ParseOutcome::Parsed(ParsedView::Arguments(st2.args, st2.nargs, st2.flags))
                    } else {
                        ParseOutcome::Failed("Some required arguments were not provided."@)
                    },
                }
            }
        }
    }

    /// The parse of a line: its words as a shell splits them, or an error when a quote is not
    /// closed.
    pub open spec fn parse_line_spec(self, line: Seq<char>) -> ParseOutcome
        decreases self, 1int,
    {
        match shell_split(line) {
            None => ParseOutcome::Failed(split_failure()),
            Some(ws) => self.parse_words_spec(ws),
        }
    }
}

/// The parse state held by the lists of a parse in progress, with the words from `k` on left.
pub open spec fn state_of(words: Seq<String>, k: int, required: Seq<String>, args: Seq<(String, String)>,
    nargs: Seq<(String, Vec<String>)>, flags: Seq<String>) -> ParseState {
    ParseState {
        tokens: texts(words).subrange(k, words.len() as int),
        required: name_set(required),
        args: entry_map(args).map_values(|s: String| s@),
        nargs: entry_map(nargs).map_values(|v: Vec<String>| texts(v@)),
        flags: name_set(flags),
    }
}

/// The arguments of a parse, and of every subcommand's parse, have distinct names.
pub open spec fn parsed_wf(p: ParsedArgs) -> bool
    decreases p,
{
    match p {
        ParsedArgs::SubCommand(s) => parsed_wf(*s.args),
        ParsedArgs::Arguments(a) => a.wf(),
    }
}

fn message_with(prefix: &str, middle: &String, suffix: &str) -> (s: String)
    ensures
        s@ == prefix@ + middle@ + suffix@,
{
    let mut s = String::from_str(prefix);
    s.append(middle.as_str());
    s.append(suffix);
    s
}

proof fn lemma_put_view<T, V>(m: Map<Seq<char>, T>, k: Seq<char>, v: T, f: spec_fn(T) -> V)
    ensures
        m.insert(k, v).map_values(f) == m.map_values(f).insert(k, f(v)),
{
    assert(m.insert(k, v).map_values(f) =~= m.map_values(f).insert(k, f(v)));
}

proof fn lemma_subrange_step(words: Seq<String>, k: int)
    requires
        0 <= k < words.len(),
    ensures
        texts(words).subrange(k, words.len() as int)[0] == words[k]@,
        texts(words).subrange(k, words.len() as int).subrange(1, words.len() - k) == texts(words).subrange(k + 1, words.len() as int),
        texts(words).subrange(k, words.len() as int).len() == words.len() - k,
{
    assert(texts(words).subrange(k, words.len() as int).subrange(1, words.len() - k) =~= texts(words).subrange(k + 1, words.len() as int));
}

impl ArgumentParser {
    pub fn builder() -> (b: ArgumentParserBuilder)
        ensures
            b.wf(),
            b.sub_commands@.len() == 0,
            b.required@.len() == 0,
            b.positional@.len() == 0,
            b.named@.len() == 0,
            b.keys@.len() == 0,
            b.key_set@.len() == 0,
            !b.has_optional_positional,
            !b.has_positional_narg,
    {
        ArgumentParserBuilder::new()
    }

    fn key_index(&self, w: &String) -> (r: Option<usize>)
        requires
            distinct_keys(self.keys@),
        ensures
            (r is Some) == self.is_key(w@),
            r matches Some(i) ==> i < self.keys@.len() && self.key_target(w@) == self.keys@[i as int].1@,
    {
        proof { lemma_entry_map(self.keys@); }
        let r = find_index(&self.keys, w);
        proof {
            if let Some(i) = r {
                assert(entry_map(self.keys@)[self.keys@[i as int].0@] == self.keys@[i as int].1);
            }
        }
        r
    }

    fn take_values_exec(&self, words: &Vec<String>, start: usize, first: String) -> (r: (Vec<String>, usize))
        requires
            distinct_keys(self.keys@),
            start <= words@.len(),
        ensures
            r.1 <= words@.len(),
            texts(r.0@) == self.take_values(seq![first@], texts(words@).subrange(start as int, words@.len() as int)).0,
            texts(words@).subrange(r.1 as int, words@.len() as int)
                == self.take_values(seq![first@], texts(words@).subrange(start as int, words@.len() as int)).1,
    {
        let ghost f = first@;
        let mut vals: Vec<String> = vec![first];
        let mut k = start;
        assert(texts(vals@) =~= seq![f]);
        let ghost target = self.take_values(seq![f], texts(words@).subrange(k as int, words@.len() as int));
        loop
            invariant
                distinct_keys(self.keys@),
                k <= words@.len(),
                start <= words@.len(),
                f == first@,
                target == self.take_values(seq![f], texts(words@).subrange(start as int, words@.len() as int)),
                self.take_values(texts(vals@), texts(words@).subrange(k as int, words@.len() as int)) == target,
            decreases words@.len() - k,
        {
            if k >= words.len() {
                assert(texts(words@).subrange(k as int, words@.len() as int) =~= Seq::<Seq<char>>::empty());
                assert(self.take_values(texts(vals@), Seq::<Seq<char>>::empty()) == (texts(vals@), Seq::<Seq<char>>::empty()));
                return (vals, k);
            }
            proof { lemma_subrange_step(words@, k as int); }
            let ghost rest = texts(words@).subrange(k as int, words@.len() as int);
            let a = words[k].clone();
            k += 1;
            if self.key_index(&a).is_some() {
                assert(self.take_values(texts(vals@), rest) == (texts(vals@), rest.subrange(1, rest.len() as int)));
                return (vals, k);
            }
            let ghost before = vals@;
            vals.push(a);
            assert(texts(vals@) =~= texts(before).push(words@[k - 1]@));
        }
    }

    fn positional_phase(&self, words: &Vec<String>, k: &mut usize, required: &mut Vec<String>,
        args: &mut Vec<(String, String)>, nargs: &mut Vec<(String, Vec<String>)>, flags: &Vec<String>) -> (j: usize)
        requires
            self.wf(),
            *old(k) <= words@.len(),
            distinct_keys(old(args)@),
            distinct_keys(old(nargs)@),
        ensures
            *final(k) <= words@.len(),
            distinct_keys(final(args)@),
            distinct_keys(final(nargs)@),
            (state_of(words@, *final(k) as int, final(required)@, final(args)@, final(nargs)@, flags@), j as int)
                == self.pos_phase(0, state_of(words@, *old(k) as int, old(required)@, old(args)@, old(nargs)@, flags@)),
    {
        let ghost init = state_of(words@, *k as int, required@, args@, nargs@, flags@);
        let mut i: usize = 0;
        while i < self.positional.len()
            invariant
                self.wf(),
                *k <= words@.len(),
                i <= self.positional@.len(),
                init == state_of(words@, *old(k) as int, old(required)@, old(args)@, old(nargs)@, flags@),
                distinct_keys(args@),
                distinct_keys(nargs@),
                self.pos_phase(0, init) == self.pos_phase(i as int, state_of(words@, *k as int, required@, args@, nargs@, flags@)),
            decreases self.positional@.len() - i,
        {
            let ghost cur = state_of(words@, *k as int, required@, args@, nargs@, flags@);
            let parg = &self.positional[i];
            if *k >= words.len() {
                assert(cur.tokens =~= Seq::<Seq<char>>::empty());
                assert(self.pos_phase(i as int, cur) == (cur, i + 1));
                return i + 1;
            }
            proof { lemma_subrange_step(words@, *k as int); }
            let arg = words[*k].clone();
            *k = *k + 1;
            if !parg.is_narg {
                if parg.is_required {
                    remove_name(required, &parg.name);
                    proof { lemma_put_view(entry_map(args@), parg.name@, arg, |s: String| s@); }
                    put(args, parg.name.clone(), arg);
                } else {
                    if self.key_index(&arg).is_some() {
                        assert(state_of(words@, *k as int, required@, args@, nargs@, flags@)
                            == ParseState { tokens: cur.tokens.subrange(1, cur.tokens.len() as int), ..cur });
                        assert(self.pos_phase(i as int, cur) == (ParseState { tokens: cur.tokens.subrange(1, cur.tokens.len() as int), ..cur }, i + 1));
                        return i + 1;
                    }
                    proof { lemma_put_view(entry_map(args@), parg.name@, arg, |s: String| s@); }
                    put(args, parg.name.clone(), arg);
                }
            } else {
                if parg.is_required || self.key_index(&arg).is_none() {
                    let (vals, nk) = self.take_values_exec(words, *k, arg);
                    *k = nk;
                    if parg.is_required {
                        remove_name(required, &parg.name);
                    }
                    proof { lemma_put_view(entry_map(nargs@), parg.name@, vals, |v: Vec<String>| texts(v@)); }
                    put(nargs, parg.name.clone(), vals);
                }
            }
            i += 1;
        }
        self.positional.len()
    }

    fn named_phase_exec(&self, words: &Vec<String>, start: usize, required: &mut Vec<String>,
        args: &mut Vec<(String, String)>, nargs: &mut Vec<(String, Vec<String>)>, flags: &mut Vec<String>) -> (r: Result<(), InputError>)
        requires
            self.wf(),
            start <= words@.len(),
            distinct_keys(old(args)@),
            distinct_keys(old(nargs)@),
        ensures
            distinct_keys(final(args)@),
            distinct_keys(final(nargs)@),
            match r {
                Ok(_) => self.named_phase(state_of(words@, start as int, old(required)@, old(args)@, old(nargs)@, old(flags)@))
                    == NamedOutcome::Parsed(state_of(words@, words@.len() as int, final(required)@, final(args)@, final(nargs)@, final(flags)@)),
                Err(e) => self.named_phase(state_of(words@, start as int, old(required)@, old(args)@, old(nargs)@, old(flags)@))
                    == NamedOutcome::Failed(e.msg@),
            },
    {
        let ghost init = state_of(words@, start as int, required@, args@, nargs@, flags@);
        let mut k = start;
        while k < words.len()
            invariant
                self.wf(),
                k <= words@.len(),
                start <= words@.len(),
                init == state_of(words@, start as int, old(required)@, old(args)@, old(nargs)@, old(flags)@),
                distinct_keys(args@),
                distinct_keys(nargs@),
                self.named_phase(init) == self.named_phase(state_of(words@, k as int, required@, args@, nargs@, flags@)),
            decreases words@.len() - k,
        {
            proof { lemma_subrange_step(words@, k as int); }
            let ghost cur = state_of(words@, k as int, required@, args@, nargs@, flags@);
            let arg = words[k].clone();
            k += 1;
            let ki = self.key_index(&arg);
            if ki.is_none() {
                assert(self.named_phase(cur) == NamedOutcome::Failed("Unexpected argument encountered: "@ + arg@ + "."@));
                return Err(InputError::new(message_with("Unexpected argument encountered: ", &arg, ".").as_str()));
            }
            let name = &self.keys[ki.unwrap()].1;
            proof { lemma_entry_map(self.named@); }
            match find_index(&self.named, name) {
                None => {
                    assert(!entry_map(self.named@).contains_key(self.key_target(arg@)));
                    assert(self.named_phase(cur) == NamedOutcome::Failed("Could not find a known argument matching key "@ + arg@ + "."@));
                    return Err(InputError::new(message_with("Could not find a known argument matching key ", &arg, ".").as_str()));
                },
                Some(ni) => {
                    let named_arg = &self.named[ni].1;
                    assert(entry_map(self.named@)[self.named@[ni as int].0@] == self.named@[ni as int].1);
                    if named_arg.is_flag {
                        add_name(flags, named_arg.name.clone());
                    } else {
                        if named_arg.is_required {
                            remove_name(required, &named_arg.name);
                        }
                        if !named_arg.is_narg {
                            if k >= words.len() {
                                assert(texts(words@).subrange(k as int, words@.len() as int).len() == 0);
                                return Err(InputError::new(message_with("No value was specified for named arg ", &named_arg.name, ".").as_str()));
                            }
                            proof { lemma_subrange_step(words@, k as int); }
                            let val = words[k].clone();
                            k += 1;
                            proof { lemma_put_view(entry_map(args@), named_arg.name@, val, |s: String| s@); }
                            put(args, named_arg.name.clone(), val);
                        } else {
                            let (vals, nk) = self.named_values_exec(words, k);
                            if vals.len() == 0 {
                                return Err(InputError::new(message_with("No value was specified for named arg ", &named_arg.name, ".").as_str()));
                            }
                            k = nk;
                            proof { lemma_put_view(entry_map(nargs@), named_arg.name@, vals, |v: Vec<String>| texts(v@)); }
                            put(nargs, named_arg.name.clone(), vals);
                        }
                    }
                },
            }
        }
        assert(texts(words@).subrange(k as int, words@.len() as int) =~= Seq::<Seq<char>>::empty());
        Ok(())
    }

    fn named_values_exec(&self, words: &Vec<String>, start: usize) -> (r: (Vec<String>, usize))
        requires
            distinct_keys(self.keys@),
            start <= words@.len(),
        ensures
            start <= r.1 <= words@.len(),
            texts(r.0@) == self.named_values(texts(words@).subrange(start as int, words@.len() as int), false, seq![]).0,
            texts(words@).subrange(r.1 as int, words@.len() as int)
                == self.named_values(texts(words@).subrange(start as int, words@.len() as int), false, seq![]).1,
    {
        let mut vals: Vec<String> = Vec::new();
        let mut did_one = false;
        let mut k = start;
        let ghost target = self.named_values(texts(words@).subrange(k as int, words@.len() as int), false, seq![]);
        assert(texts(vals@) =~= Seq::<Seq<char>>::empty());
        loop
            invariant
                distinct_keys(self.keys@),
                start <= k <= words@.len(),
                target == self.named_values(texts(words@).subrange(start as int, words@.len() as int), false, seq![]),
                self.named_values(texts(words@).subrange(k as int, words@.len() as int), did_one, texts(vals@)) == target,
            decreases words@.len() - k,
        {
            if k >= words.len() {
                assert(texts(words@).subrange(k as int, words@.len() as int) =~= Seq::<Seq<char>>::empty());
                assert(self.named_values(Seq::<Seq<char>>::empty(), did_one, texts(vals@)) == (texts(vals@), Seq::<Seq<char>>::empty()));
                return (vals, k);
            }
            proof { lemma_subrange_step(words@, k as int); }
            let ghost rest = texts(words@).subrange(k as int, words@.len() as int);
            let val = words[k].clone();
            k += 1;
            if did_one && self.key_index(&val).is_some() {
                assert(self.named_values(rest, did_one, texts(vals@)) == (texts(vals@), rest.subrange(1, rest.len() as int)));
                return (vals, k);
            }
            let ghost before = vals@;
            vals.push(val);
            assert(texts(vals@) =~= texts(before).push(words@[k - 1]@));
            did_one = true;
        }
    }
}

/// With distinct names, the subcommand found by name is the one at its index.
proof fn lemma_sub_index(p: ArgumentParser, w: Seq<char>, si: int)
    requires
        distinct_keys(p.sub_commands@),
        0 <= si < p.sub_commands@.len(),
        p.sub_commands@[si].0@ == w,
    ensures
        p.sub_index(w) == si,
{
    let c = choose|i: int| 0 <= i < p.sub_commands@.len() && (#[trigger] p.sub_commands@[i]).0@ == w;
    assert(p.sub_commands@[c].0@ == w);
}

/// A list of names names nothing exactly when it is empty.
proof fn lemma_name_set_empty(v: Seq<String>)
    ensures
        name_set(v).is_empty() <==> v.len() == 0,
{
    if v.len() > 0 {
        assert(name_set(v).contains(v[0]@));
    } else {
        assert(name_set(v) =~= Set::<Seq<char>>::empty());
    }
}

fn copy_tail(words: &Vec<String>) -> (r: Vec<String>)
    requires
        words@.len() > 0,
    ensures
        texts(r@) == texts(words@).subrange(1, words@.len() as int),
{
    let mut r: Vec<String> = Vec::new();
    let mut i: usize = 1;
    while i < words.len()
        invariant
            1 <= i <= words@.len(),
            texts(r@) == texts(words@).subrange(1, i as int),
        decreases words@.len() - i,
    {
        let ghost before = r@;
        r.push(words[i].clone());
        assert(texts(r@) =~= texts(before).push(words@[i as int]@));
        assert(texts(words@).subrange(1, i + 1) =~= texts(words@).subrange(1, i as int).push(words@[i as int]@));
        i += 1;
    }
    r
}

impl ArgumentParser {
    /// Parses a line already split into words.
    pub fn parse_words(&self, words: &Vec<String>) -> (r: Result<ParsedArgs, InputError>)
        requires
            self.wf(),
        ensures
            match r {
                Ok(p) => self.parse_words_spec(texts(words@)) == ParseOutcome::Parsed(p.parsed_view()) && parsed_wf(p),
                Err(e) => self.parse_words_spec(texts(words@)) == ParseOutcome::Failed(e.msg@),
            },
        decreases self, 0int,
    {
        let ghost ws = texts(words@);
        if words.len() == 0 {
            let a = Arguments::new();
            return Ok(ParsedArgs::Arguments(a));
        }
        match find_index(&self.sub_commands, &words[0]) {
            Some(si) => {
                proof { lemma_sub_index(*self, ws[0], si as int); }
                let rest = copy_tail(words);
                let line = join_words(&rest);
                let sub = &self.sub_commands[si].1;
                proof {
                    assert(decreases_to!(self => self.sub_commands));
                    assert(decreases_to!(self.sub_commands => self.sub_commands@));
                    assert(decreases_to!(self.sub_commands@ => self.sub_commands@[si as int]));
                }
                match sub.parse(line.as_str()) {
                    Ok(a) => Ok(ParsedArgs::SubCommand(SubCommand { name: words[0].clone(), args: Box::new(a) })),
                    Err(e) => Err(e),
                }
            },
            None => {
                assert(self.sub_index(ws[0]) == -1);
                let mut k: usize = 0;
                let mut required = copy_strings(&self.required);
                let mut args: Vec<(String, String)> = Vec::new();
                let mut nargs: Vec<(String, Vec<String>)> = Vec::new();
                let mut flags: Vec<String> = Vec::new();
                proof {
                    let st0 = ParseState { tokens: ws, required: name_set(self.required@), args: Map::empty(), nargs: Map::empty(), flags: Set::empty() };
                    assert(name_set(required@) =~= name_set(self.required@)) by {
                        assert forall|key: Seq<char>| name_set(required@).contains(key) <==> name_set(self.required@).contains(key) by {
                            if name_set(required@).contains(key) {
                                let j = choose|j: int| 0 <= j < required@.len() && (#[trigger] required@[j])@ == key;
                                assert(self.required@[j]@ == key);
                            }
                            if name_set(self.required@).contains(key) {
                                let j = choose|j: int| 0 <= j < self.required@.len() && (#[trigger] self.required@[j])@ == key;
                                assert(required@[j]@ == key);
                            }
                        }
                    }
                    assert(texts(words@).subrange(0, words@.len() as int) =~= ws);
                    assert(entry_map(args@).map_values(|s: String| s@) =~= Map::<Seq<char>, Seq<char>>::empty());
                    assert(entry_map(nargs@).map_values(|v: Vec<String>| texts(v@)) =~= Map::<Seq<char>, Seq<Seq<char>>>::empty());
                    assert(name_set(flags@) =~= Set::<Seq<char>>::empty());
                    assert(state_of(words@, 0, required@, args@, nargs@, flags@) == st0);
                }
                let j = self.positional_phase(words, &mut k, &mut required, &mut args, &mut nargs, &flags);
                if j < self.positional.len() && self.positional[j].is_required {
                    return Err(InputError::new("Some required positional arguments were not provided."));
                }
                match self.named_phase_exec(words, k, &mut required, &mut args, &mut nargs, &mut flags) {
                    Err(e) => { return Err(e); },
                    Ok(_) => {},
                }
                proof { lemma_name_set_empty(required@); }
                if required.len() > 0 {
                    return Err(InputError::new("Some required arguments were not provided."));
                }
                Ok(ParsedArgs::Arguments(Arguments { args: args, nargs: nargs, flags: flags }))
            },
        }
    }

    /// Parses a line: splits it into words as a Unix shell does, then reads the words.
    pub fn parse(&self, input: &str) -> (r: Result<ParsedArgs, InputError>)
        requires
            self.wf(),
        ensures
            match r {
                Ok(p) => self.parse_line_spec(input@) == ParseOutcome::Parsed(p.parsed_view()) && parsed_wf(p),
                Err(e) => self.parse_line_spec(input@) == ParseOutcome::Failed(e.msg@),
            },
        decreases self, 1int,
    {
        match split_words(input) {
            Err(e) => {
                let text = parse_error_text(&e);
                let mut msg = String::from_str("Could not parse input into valid argments: ");
                msg.append(text.as_str());
                Err(InputError::new(msg.as_str()))
            },
            Ok(words) => self.parse_words(&words),
        }
    }
}

// ---------------------------------------------------------------------------
// Building parsers
// ---------------------------------------------------------------------------

/// What the parser to be built will know.
pub struct ArgumentParserBuilder {
    pub sub_commands: Vec<(String, ArgumentParserBuilder)>,
    pub required: Vec<String>,
    pub positional: Vec<Argument>,
    pub named: Vec<(String, Argument)>,
    pub keys: Vec<(String, String)>,
    pub key_set: Vec<String>,
    pub has_optional_positional: bool,
    pub has_positional_narg: bool,
}

/// The texts of a list of string slices.
pub open spec fn str_texts(v: Seq<&str>) -> Seq<Seq<char>> {
    v.map_values(|s: &str| s@)
}

/// Whether the entries name the same texts, in order.
pub open spec fn same_names<T, U>(a: Seq<(String, T)>, b: Seq<(String, U)>) -> bool {
    a.len() == b.len() && forall|i: int| 0 <= i < a.len() ==> (#[trigger] a[i]).0@ == b[i].0@
}

/// Two lists of the same names have distinct names together.
proof fn lemma_same_names_distinct<T, U>(a: Seq<(String, T)>, b: Seq<(String, U)>)
    requires
        same_names(a, b),
        distinct_keys(a),
    ensures
        distinct_keys(b),
{
    assert forall|i: int, j: int| 0 <= i < b.len() && 0 <= j < b.len() && i != j implies (#[trigger] b[i]).0@ != (#[trigger] b[j]).0@ by {
        assert(a[i].0@ == b[i].0@ && a[j].0@ == b[j].0@);
    }
}

/// Whether a parser is the one a builder builds: the same subcommands (each built from the
/// builder's), required names, positional and named arguments, and keys.
pub open spec fn built_from(p: ArgumentParser, b: ArgumentParserBuilder) -> bool
    decreases b,
{
    &&& same_names(p.sub_commands@, b.sub_commands@)
    &&& forall|i: int| 0 <= i < b.sub_commands@.len() ==> built_from(#[trigger] p.sub_commands@[i].1, b.sub_commands@[i].1)
    &&& texts(p.required@) == texts(b.required@)
    &&& p.positional@.len() == b.positional@.len()
    &&& forall|i: int| 0 <= i < b.positional@.len() ==> same_argument(#[trigger] p.positional@[i], b.positional@[i])
    &&& same_names(p.named@, b.named@)
    &&& forall|i: int| 0 <= i < b.named@.len() ==> same_argument(#[trigger] p.named@[i].1, b.named@[i].1)
    &&& same_names(p.keys@, b.keys@)
    &&& forall|i: int| 0 <= i < b.keys@.len() ==> (#[trigger] p.keys@[i]).1@ == b.keys@[i].1@
}

fn texts_of(keys: &Vec<&str>) -> (v: Vec<String>)
    ensures
        texts(v@) == str_texts(keys@),
{
    let mut v: Vec<String> = Vec::new();
    let mut i: usize = 0;
    while i < keys.len()
        invariant
            i <= keys@.len(),
            texts(v@) == str_texts(keys@).take(i as int),
        decreases keys@.len() - i,
    {
        let ghost before = v@;
        v.push(String::from_str(keys[i]));
        assert(texts(v@) =~= texts(before).push(keys@[i as int]@));
        assert(str_texts(keys@).take(i + 1) =~= str_texts(keys@).take(i as int).push(keys@[i as int]@));
        i += 1;
    }
    assert(str_texts(keys@).take(keys@.len() as int) =~= str_texts(keys@));
    v
}


/// What adding a named argument does to a builder: the argument is known by its name, with
/// its keys, whether it is required and whether it takes several values; the other named
/// arguments stay; the keys lead to it; it is required when asked; the subcommands and
/// positional arguments stay.
pub open spec fn named_arg_added(before: ArgumentParserBuilder, after: ArgumentParserBuilder, name: Seq<char>,
    keys: Seq<Seq<char>>, required: bool, narg: bool) -> bool {
    &&& entry_map(after.named@).contains_key(name)
    &&& entry_map(after.named@).dom() == entry_map(before.named@).dom().insert(name)
    &&& ({
        let a = entry_map(after.named@)[name];
        a.name@ == name && a.is_required == required && a.is_narg == narg && !a.is_flag && texts(a.keys@) == keys
    })
    &&& forall|n: Seq<char>| #[trigger] entry_map(before.named@).contains_key(n) && n != name
        ==> entry_map(after.named@)[n] == entry_map(before.named@)[n]
    &&& forall|k: Seq<char>| #[trigger] entry_map(after.keys@).contains_key(k)
        <==> (entry_map(before.keys@).contains_key(k) || keys.contains(k))
    &&& forall|k: Seq<char>| #[trigger] entry_map(after.keys@).contains_key(k) ==> entry_map(after.keys@)[k]@
        == if keys.contains(k) { name } else { entry_map(before.keys@)[k]@ }
    &&& name_set(after.key_set@) == name_set(before.key_set@).union(keys.to_set())
    &&& name_set(after.required@) == if required { name_set(before.required@).insert(name) } else { name_set(before.required@) }
    &&& after.sub_commands == before.sub_commands
    &&& after.positional == before.positional
}

/// Entries with the same names and values of the same text map each name to a value of the
/// same text.
proof fn lemma_entry_map_same(p: Seq<(String, String)>, b: Seq<(String, String)>, k: Seq<char>)
    requires
        same_names(p, b),
        forall|i: int| 0 <= i < b.len() ==> (#[trigger] p[i]).1@ == b[i].1@,
        distinct_keys(b),
        entry_map(b).contains_key(k),
    ensures
        entry_map(p).contains_key(k),
        entry_map(p)[k]@ == entry_map(b)[k]@,
{
    lemma_entry_map(b);
    lemma_same_names_distinct(b, p);
    lemma_entry_map(p);
    let i = choose|i: int| 0 <= i < b.len() && (#[trigger] b[i]).0@ == k;
    assert(p[i].0@ == k);
    assert(entry_map(b)[b[i].0@] == b[i].1);
    assert(entry_map(p)[p[i].0@] == p[i].1);
}

/// Once a named argument with one value is added to a builder that has no positional
/// arguments, the parser built from it reads one of the argument's keys followed by a value
/// as that value given to the argument, and nothing else; so does it read a line that splits
/// into these two words. This holds when the key names no subcommand and no other argument
/// is required (nor the argument itself, when it is added as optional).
pub proof fn lemma_named_arg_parses(before: ArgumentParserBuilder, after: ArgumentParserBuilder, p: ArgumentParser,
    name: Seq<char>, keys: Seq<Seq<char>>, required: bool, k: Seq<char>, v: Seq<char>, line: Seq<char>)
    requires
        before.wf(),
        after.wf(),
        named_arg_added(before, after, name, keys, required, false),
        built_from(p, after),
        p.wf(),
        keys.contains(k),
        before.positional@.len() == 0,
        !entry_map(before.sub_commands@).contains_key(k),
        forall|r: Seq<char>| #[trigger] name_set(before.required@).contains(r) ==> r == name && required,
    ensures
        p.parse_words_spec(seq![k, v]) == ParseOutcome::Parsed(ParsedView::Arguments(
            Map::<Seq<char>, Seq<char>>::empty().insert(name, v), Map::empty(), Set::empty())),
        shell_split(line) == Some(seq![k, v]) ==> p.parse_line_spec(line) == ParseOutcome::Parsed(ParsedView::Arguments(
            Map::<Seq<char>, Seq<char>>::empty().insert(name, v), Map::empty(), Set::empty())),
{
    let ws = seq![k, v];
    // no subcommand is named by the key
    lemma_entry_map(before.sub_commands@);
    assert(!exists|i: int| 0 <= i < p.sub_commands@.len() && (#[trigger] p.sub_commands@[i]).0@ == k) by {
        if exists|i: int| 0 <= i < p.sub_commands@.len() && (#[trigger] p.sub_commands@[i]).0@ == k {
            let i = choose|i: int| 0 <= i < p.sub_commands@.len() && (#[trigger] p.sub_commands@[i]).0@ == k;
            assert(after.sub_commands@[i].0@ == k);
        }
    }
    assert(p.sub_index(ws[0]) == -1);
    // the key leads to the argument
    assert(entry_map(after.keys@).contains_key(k));
    lemma_entry_map_same(p.keys@, after.keys@, k);
    assert(p.is_key(k));
    assert(p.key_target(k) == name);
    // the argument is known under its name
    lemma_entry_map(after.named@);
    let ai = choose|i: int| 0 <= i < after.named@.len() && (#[trigger] after.named@[i]).0@ == name;
    lemma_same_names_distinct(after.named@, p.named@);
    lemma_entry_map(p.named@);
    assert(p.named@[ai].0@ == name);
    assert(entry_map(p.named@).contains_key(name));
    assert(entry_map(after.named@)[after.named@[ai].0@] == after.named@[ai].1);
    assert(entry_map(p.named@)[p.named@[ai].0@] == p.named@[ai].1);
    assert(same_argument(p.named@[ai].1, after.named@[ai].1));
    let na = entry_map(p.named@)[name];
    assert(na.name@ == name && na.is_required == required && !na.is_narg && !na.is_flag);
    // the required names
    let req = name_set(p.required@);
    assert(name_set(p.required@) =~= name_set(after.required@)) by {
        assert forall|r: Seq<char>| name_set(p.required@).contains(r) <==> name_set(after.required@).contains(r) by {
            if name_set(p.required@).contains(r) {
                let i = choose|i: int| 0 <= i < p.required@.len() && (#[trigger] p.required@[i])@ == r;
                assert(texts(p.required@).len() == p.required@.len());
                assert(texts(after.required@).len() == after.required@.len());
                assert(texts(p.required@)[i] == p.required@[i]@);
                assert(texts(after.required@)[i] == after.required@[i]@);
                assert(after.required@[i]@ == r);
            }
            if name_set(after.required@).contains(r) {
                let i = choose|i: int| 0 <= i < after.required@.len() && (#[trigger] after.required@[i])@ == r;
                assert(texts(p.required@).len() == p.required@.len());
                assert(texts(after.required@).len() == after.required@.len());
                assert(texts(p.required@)[i] == p.required@[i]@);
                assert(texts(after.required@)[i] == after.required@[i]@);
                assert(p.required@[i]@ == r);
            }
        }
    }
    let req2 = if required { req.remove(name) } else { req };
    assert(req2 =~= Set::<Seq<char>>::empty()) by {
        assert forall|r: Seq<char>| !req2.contains(r) by {
            if name_set(before.required@).contains(r) {
                assert(r == name && required);
            }
        }
    }
    // the phases
    let st0 = ParseState { tokens: ws, required: req, args: Map::empty(), nargs: Map::empty(), flags: Set::empty() };
    assert(p.pos_phase(0, st0) == (st0, 0int));
    let rest = ws.subrange(1, 2);
    assert(rest =~= seq![v]);
    let st2 = ParseState { tokens: rest.subrange(1, 1), required: req2, args: Map::<Seq<char>, Seq<char>>::empty().insert(name, v), ..st0 };
    assert(rest.subrange(1, 1).len() == 0);
    assert(p.named_phase(st2) == NamedOutcome::Parsed(st2));
    assert(p.named_phase(st0) == p.named_phase(st2));
}

impl ArgumentParserBuilder {
    /// The names of the entries are distinct, here and in every subcommand's builder.
    pub open spec fn wf(self) -> bool
        decreases self,
    {
        &&& distinct_keys(self.sub_commands@)
        &&& distinct_keys(self.named@)
        &&& distinct_keys(self.keys@)
        &&& forall|i: int| 0 <= i < self.sub_commands@.len() ==> (#[trigger] self.sub_commands@[i]).1.wf()
    }

    fn new() -> (b: ArgumentParserBuilder)
        ensures
            b.wf(),
            b.sub_commands@.len() == 0,
            b.required@.len() == 0,
            b.positional@.len() == 0,
            b.named@.len() == 0,
            b.keys@.len() == 0,
            b.key_set@.len() == 0,
            !b.has_optional_positional,
            !b.has_positional_narg,
    {
        ArgumentParserBuilder {
            sub_commands: Vec::new(),
            required: Vec::new(),
            positional: Vec::new(),
            named: Vec::new(),
            keys: Vec::new(),
            key_set: Vec::new(),
            has_optional_positional: false,
            has_positional_narg: false,
        }
    }

    /// Adds a subcommand, with the builder of its own parser.
    pub fn add_subcommand(&mut self, name: &str, sub_builder: ArgumentParserBuilder) -> (r: Result<(), ()>)
        requires
            old(self).wf(),
            sub_builder.wf(),
        ensures
            r is Ok,
            final(self).wf(),
            entry_map(final(self).sub_commands@) == entry_map(old(self).sub_commands@).insert(name@, sub_builder),
            !entry_map(old(self).sub_commands@).contains_key(name@) ==> {
                &&& final(self).sub_commands@.len() == old(self).sub_commands@.len() + 1
                &&& final(self).sub_commands@.drop_last() == old(self).sub_commands@
                &&& final(self).sub_commands@.last().0@ == name@
                &&& final(self).sub_commands@.last().1 == sub_builder
            },
            final(self).required == old(self).required,
            final(self).positional == old(self).positional,
            final(self).named == old(self).named,
            final(self).keys == old(self).keys,
            final(self).key_set == old(self).key_set,
            final(self).has_optional_positional == old(self).has_optional_positional,
            final(self).has_positional_narg == old(self).has_positional_narg,
    {
        proof { lemma_entry_map(self.sub_commands@); }
        put(&mut self.sub_commands, String::from_str(name), sub_builder);
        proof {
            lemma_entry_map(self.sub_commands@);
            assert forall|i: int| 0 <= i < self.sub_commands@.len() implies (#[trigger] self.sub_commands@[i]).1.wf() by {
                let k = self.sub_commands@[i].0@;
                assert(entry_map(self.sub_commands@)[k] == self.sub_commands@[i].1);
                if k != name@ {
                    assert(entry_map(self.sub_commands@).contains_key(k));
                    assert(entry_map(old(self).sub_commands@).contains_key(k));
                    let j = choose|j: int| 0 <= j < old(self).sub_commands@.len() && (#[trigger] old(self).sub_commands@[j]).0@ == k;
                    assert(entry_map(old(self).sub_commands@)[old(self).sub_commands@[j].0@] == old(self).sub_commands@[j].1);
                }
            }
        }
        Ok(())
    }

    pub fn add_positional_arg(&mut self, name: &str, required: bool, narg: bool) -> (r: Result<(), InputError>)
        requires
            old(self).wf(),
        ensures
            final(self).wf(),
            old(self).has_positional_narg ==> (r matches Err(e) && e.msg@ == "Additional positional arguments cannot be added after a positional narg."@
                && *final(self) == *old(self)),
            !old(self).has_positional_narg && old(self).has_optional_positional && required ==> (r matches Err(e)
                && e.msg@ == "Required positional arguments cannot be added after optional ones."@ && *final(self) == *old(self)),
            !old(self).has_positional_narg && old(self).has_optional_positional && !required && narg ==> (r matches Err(e)
                && e.msg@ == "Positional narg arguments cannot be added after optional positional arguments."@ && *final(self) == *old(self)),
            !old(self).has_positional_narg && !(old(self).has_optional_positional && (required || narg)) ==> {
                &&& r is Ok
                &&& final(self).positional@.len() == old(self).positional@.len() + 1
                &&& final(self).positional@.drop_last() == old(self).positional@
                &&& final(self).positional@.last().name@ == name@
                &&& final(self).positional@.last().is_required == required
                &&& final(self).positional@.last().keys@.len() == 0
                &&& final(self).positional@.last().is_narg == narg
                &&& !final(self).positional@.last().is_flag
                &&& name_set(final(self).required@) == if required { name_set(old(self).required@).insert(name@) } else { name_set(old(self).required@) }
                &&& final(self).has_optional_positional == (old(self).has_optional_positional || !required)
                &&& final(self).has_positional_narg == narg
                &&& final(self).sub_commands == old(self).sub_commands
                &&& final(self).named == old(self).named
                &&& final(self).keys == old(self).keys
                &&& final(self).key_set == old(self).key_set
            },
    {
        if self.has_positional_narg {
            return Err(InputError::new("Additional positional arguments cannot be added after a positional narg."));
        }
        if self.has_optional_positional && required {
            return Err(InputError::new("Required positional arguments cannot be added after optional ones."));
        }
        if self.has_optional_positional && narg {
            return Err(InputError::new("Positional narg arguments cannot be added after optional positional arguments."));
        }
        self.positional.push(Argument {
            name: String::from_str(name),
            is_required: required,
            keys: Vec::new(),
            is_narg: narg,
            is_flag: false,
        });
        if required {
            add_name(&mut self.required, String::from_str(name));
        } else {
            self.has_optional_positional = true;
        }
        if narg {
            self.has_positional_narg = true;
        }
        Ok(())
    }

    /// Whether none of the keys is taken already.
    fn keys_free(&self, keys: &Vec<&str>) -> (b: bool)
        ensures
            b == forall|i: int| 0 <= i < keys@.len() ==> !name_set(self.key_set@).contains(#[trigger] keys@[i]@),
    {
        let mut i: usize = 0;
        while i < keys.len()
            invariant
                i <= keys@.len(),
                forall|j: int| 0 <= j < i ==> !name_set(self.key_set@).contains(#[trigger] keys@[j]@),
            decreases keys@.len() - i,
        {
            let k = String::from_str(keys[i]);
            if has_name(&self.key_set, &k) {
                return false;
            }
            i += 1;
        }
        true
    }

    /// Points each key at the argument's name.
    fn register_keys(&mut self, name: &str, keys: &Vec<&str>)
        requires
            distinct_keys(old(self).keys@),
        ensures
            distinct_keys(final(self).keys@),
            forall|k: Seq<char>| #[trigger] entry_map(final(self).keys@).contains_key(k)
                <==> (entry_map(old(self).keys@).contains_key(k) || str_texts(keys@).contains(k)),
            forall|k: Seq<char>| #[trigger] entry_map(final(self).keys@).contains_key(k) ==> entry_map(final(self).keys@)[k]@
                == if str_texts(keys@).contains(k) { name@ } else { entry_map(old(self).keys@)[k]@ },
            name_set(final(self).key_set@) == name_set(old(self).key_set@).union(str_texts(keys@).to_set()),
            final(self).sub_commands == old(self).sub_commands,
            final(self).required == old(self).required,
            final(self).positional == old(self).positional,
            final(self).named == old(self).named,
            final(self).has_optional_positional == old(self).has_optional_positional,
            final(self).has_positional_narg == old(self).has_positional_narg,
    {
        let mut i: usize = 0;
        while i < keys.len()
            invariant
                i <= keys@.len(),
                distinct_keys(self.keys@),
                forall|k: Seq<char>| #[trigger] entry_map(self.keys@).contains_key(k)
                    <==> (entry_map(old(self).keys@).contains_key(k) || str_texts(keys@).take(i as int).contains(k)),
                forall|k: Seq<char>| #[trigger] entry_map(self.keys@).contains_key(k) ==> entry_map(self.keys@)[k]@
                    == if str_texts(keys@).take(i as int).contains(k) { name@ } else { entry_map(old(self).keys@)[k]@ },
                name_set(self.key_set@) == name_set(old(self).key_set@).union(str_texts(keys@).take(i as int).to_set()),
                self.sub_commands == old(self).sub_commands,
                self.required == old(self).required,
                self.positional == old(self).positional,
                self.named == old(self).named,
                self.has_optional_positional == old(self).has_optional_positional,
                self.has_positional_narg == old(self).has_positional_narg,
            decreases keys@.len() - i,
        {
            let key = keys[i];
            let ghost kt = key@;
            let ghost prev = str_texts(keys@).take(i as int);
            let ghost next = str_texts(keys@).take(i + 1);
            assert(next =~= prev.push(kt));
            assert forall|k: Seq<char>| next.contains(k) <==> (prev.contains(k) || k == kt) by {
                if next.contains(k) {
                    let j = choose|j: int| 0 <= j < next.len() && next[j] == k;
                    if j < prev.len() {
                        assert(prev[j] == k);
                    }
                }
                if prev.contains(k) {
                    let j = choose|j: int| 0 <= j < prev.len() && prev[j] == k;
                    assert(next[j] == k);
                }
                if k == kt {
                    assert(next[i as int] == k);
                }
            }
            assert(next.to_set() =~= prev.to_set().insert(kt));
            put(&mut self.keys, String::from_str(key), String::from_str(name));
            add_name(&mut self.key_set, String::from_str(key));
            assert(name_set(self.key_set@) =~= name_set(old(self).key_set@).union(next.to_set()));
            i += 1;
        }
        assert(str_texts(keys@).take(keys@.len() as int) =~= str_texts(keys@));
    }

    pub fn add_named_arg(&mut self, name: &str, keys: Vec<&str>, required: bool, narg: bool) -> (r: Result<(), InputError>)
        requires
            old(self).wf(),
        ensures
            final(self).wf(),
            keys@.len() == 0 ==> (r matches Err(e) && e.msg@ == "Named arguments must supply at least one key."@ && *final(self) == *old(self)),
            keys@.len() > 0 && (exists|i: int| 0 <= i < keys@.len() && name_set(old(self).key_set@).contains(#[trigger] keys@[i]@))
                ==> (r matches Err(e) && e.msg@ == "Some of the provided keys already belong to other arguments."@ && *final(self) == *old(self)),
            keys@.len() > 0 && !(exists|i: int| 0 <= i < keys@.len() && name_set(old(self).key_set@).contains(#[trigger] keys@[i]@)) ==> {
                &&& r is Ok
                &&& named_arg_added(*old(self), *final(self), name@, str_texts(keys@), required, narg)
            },
    {
        if keys.len() == 0 {
            return Err(InputError::new("Named arguments must supply at least one key."));
        }
        if !self.keys_free(&keys) {
            return Err(InputError::new("Some of the provided keys already belong to other arguments."));
        }
        let key_strings = texts_of(&keys);
        proof { lemma_entry_map(self.named@); }
        put(&mut self.named, String::from_str(name), Argument {
            name: String::from_str(name),
            is_required: required,
            keys: key_strings,
            is_narg: narg,
            is_flag: false,
        });
        self.register_keys(name, &keys);
        if required {
            add_name(&mut self.required, String::from_str(name));
        }
        Ok(())
    }

    pub fn add_flag_arg(&mut self, name: &str, keys: Vec<&str>) -> (r: Result<(), InputError>)
        requires
            old(self).wf(),
        ensures
            final(self).wf(),
            keys@.len() == 0 ==> (r matches Err(e) && e.msg@ == "Flag arguments must supply at least one key."@ && *final(self) == *old(self)),
            keys@.len() > 0 && (exists|i: int| 0 <= i < keys@.len() && name_set(old(self).key_set@).contains(#[trigger] keys@[i]@))
                ==> (r matches Err(e) && e.msg@ == "Some of the provided keys already belong to other arguments."@ && *final(self) == *old(self)),
            keys@.len() > 0 && !(exists|i: int| 0 <= i < keys@.len() && name_set(old(self).key_set@).contains(#[trigger] keys@[i]@)) ==> {
                &&& r is Ok
                &&& entry_map(final(self).named@).dom() == entry_map(old(self).named@).dom().insert(name@)
                &&& ({
                    let a = entry_map(final(self).named@)[name@];
                    a.name@ == name@ && !a.is_required && !a.is_narg && a.is_flag && texts(a.keys@) == str_texts(keys@)
                })
                &&& forall|n: Seq<char>| #[trigger] entry_map(old(self).named@).contains_key(n) && n != name@
                    ==> entry_map(final(self).named@)[n] == entry_map(old(self).named@)[n]
                &&& forall|k: Seq<char>| #[trigger] entry_map(final(self).keys@).contains_key(k)
                    <==> (entry_map(old(self).keys@).contains_key(k) || str_texts(keys@).contains(k))
                &&& forall|k: Seq<char>| #[trigger] entry_map(final(self).keys@).contains_key(k) ==> entry_map(final(self).keys@)[k]@
                    == if str_texts(keys@).contains(k) { name@ } else { entry_map(old(self).keys@)[k]@ }
                &&& name_set(final(self).key_set@) == name_set(old(self).key_set@).union(str_texts(keys@).to_set())
                &&& final(self).required == old(self).required
                &&& final(self).sub_commands == old(self).sub_commands
                &&& final(self).positional == old(self).positional
            },
    {
        if keys.len() == 0 {
            return Err(InputError::new("Flag arguments must supply at least one key."));
        }
        if !self.keys_free(&keys) {
            return Err(InputError::new("Some of the provided keys already belong to other arguments."));
        }
        let key_strings = texts_of(&keys);
        put(&mut self.named, String::from_str(name), Argument {
            name: String::from_str(name),
            is_required: false,
            keys: key_strings,
            is_narg: false,
            is_flag: true,
        });
        self.register_keys(name, &keys);
        Ok(())
    }

    pub fn build(&self) -> (p: ArgumentParser)
        requires
            self.wf(),
        ensures
            built_from(p, *self),
            p.wf(),
        decreases self,
    {
        let mut sub_commands: Vec<(String, ArgumentParser)> = Vec::new();
        let mut i: usize = 0;
        while i < self.sub_commands.len()
            invariant
                self.wf(),
                i <= self.sub_commands@.len(),
                sub_commands@.len() == i,
                forall|j: int| 0 <= j < i ==> (#[trigger] sub_commands@[j]).0@ == self.sub_commands@[j].0@,
                forall|j: int| 0 <= j < i ==> built_from(#[trigger] sub_commands@[j].1, self.sub_commands@[j].1) && sub_commands@[j].1.wf(),
            decreases self.sub_commands@.len() - i,
        {
            let entry = &self.sub_commands[i];
            assert(entry.1.wf());
            proof {
                assert(decreases_to!(self => self.sub_commands));
                assert(decreases_to!(self.sub_commands => self.sub_commands@));
            }
            let built = entry.1.build();
            sub_commands.push((entry.0.clone(), built));
            i += 1;
        }
        let mut positional: Vec<Argument> = Vec::new();
        let mut k: usize = 0;
        while k < self.positional.len()
            invariant
                k <= self.positional@.len(),
                positional@.len() == k,
                forall|j: int| 0 <= j < k ==> same_argument(#[trigger] positional@[j], self.positional@[j]),
            decreases self.positional@.len() - k,
        {
            positional.push(copy_argument(&self.positional[k]));
            k += 1;
        }
        let mut named: Vec<(String, Argument)> = Vec::new();
        let mut n: usize = 0;
        while n < self.named.len()
            invariant
                n <= self.named@.len(),
                named@.len() == n,
                forall|j: int| 0 <= j < n ==> (#[trigger] named@[j]).0@ == self.named@[j].0@ && same_argument(named@[j].1, self.named@[j].1),
            decreases self.named@.len() - n,
        {
            named.push((self.named[n].0.clone(), copy_argument(&self.named[n].1)));
            n += 1;
        }
        let mut keys: Vec<(String, String)> = Vec::new();
        let mut m: usize = 0;
        while m < self.keys.len()
            invariant
                m <= self.keys@.len(),
                keys@.len() == m,
                forall|j: int| 0 <= j < m ==> (#[trigger] keys@[j]).0@ == self.keys@[j].0@ && keys@[j].1@ == self.keys@[j].1@,
            decreases self.keys@.len() - m,
        {
            keys.push((self.keys[m].0.clone(), self.keys[m].1.clone()));
            m += 1;
        }
        let required = copy_strings(&self.required);
        assert(texts(required@) =~= texts(self.required@));
        let p = ArgumentParser { sub_commands: sub_commands, required: required, positional: positional, named: named, keys: keys };
        proof {
            lemma_same_names_distinct(self.sub_commands@, p.sub_commands@);
            lemma_same_names_distinct(self.named@, p.named@);
            lemma_same_names_distinct(self.keys@, p.keys@);
        }
        p
    }
}

} // verus!
