//! REPL kinds: named lists of prompt patterns. A kind maps to a list because
//! one REPL can show several prompt styles, such as a top-level prompt and
//! the prompts of its debugger.
use serde_json::{Error, Value};
use vstd::prelude::*;

use crate::pattern::{debug_text, show_debug};
use crate::text::{
    blank, law_trimmed, law_trimming_keeps_the_rest, opt_view, owned, same_text, string_views,
    trim, trimmed, whitespace,
};

verus! {

/// A table from kind names to prompt patterns. No name occurs twice.
pub struct Kinds {
    entries: Vec<(String, Vec<String>)>,
}

/// The map that a list of entries stands for; later entries override.
pub closed spec fn table(entries: Seq<(String, Vec<String>)>) -> Map<Seq<char>, Seq<Seq<char>>>
    decreases entries.len(),
{
    if entries.len() == 0 {
        Map::empty()
    } else {
        table(entries.drop_last()).insert(entries.last().0@, string_views(entries.last().1@))
    }
}

impl View for Kinds {
    type V = Map<Seq<char>, Seq<Seq<char>>>;

    closed spec fn view(&self) -> Map<Seq<char>, Seq<Seq<char>>> {
        table(self.entries@)
    }
}

/// No two entries have the same name.
spec fn distinct(entries: Seq<(String, Vec<String>)>) -> bool {
    forall|i: int, j: int|
        0 <= i < j < entries.len() ==> (#[trigger] entries[i]).0@ != (#[trigger] entries[j]).0@
}

/// A table's keys are the names of its entries, and each name maps to the
/// patterns of its entry.
proof fn lemma_table(entries: Seq<(String, Vec<String>)>)
    requires
        distinct(entries),
    ensures
        forall|i: int|
            0 <= i < entries.len() ==> table(entries).contains_pair(
                (#[trigger] entries[i]).0@,
                string_views(entries[i].1@),
            ),
        forall|name: Seq<char>|
            table(entries).contains_key(name) ==> exists|i: int|
                0 <= i < entries.len() && (#[trigger] entries[i]).0@ == name,
    decreases entries.len(),
{
    if entries.len() > 0 {
        let front = entries.drop_last();
        assert forall|i: int, j: int| 0 <= i < j < front.len() implies (#[trigger] front[i]).0@ != (
        #[trigger] front[j]).0@ by {
            assert(entries[i].0@ != entries[j].0@);
        }
        lemma_table(front);
        let n = entries.len() - 1;
        assert forall|i: int| 0 <= i < entries.len() implies table(entries).contains_pair(
            (#[trigger] entries[i]).0@,
            string_views(entries[i].1@),
        ) by {
            if i < n {
                assert(front[i] == entries[i]);
                assert(entries[i].0@ != entries[n].0@);
            }
        }
        assert forall|name: Seq<char>| table(entries).contains_key(name) implies exists|i: int|
            0 <= i < entries.len() && (#[trigger] entries[i]).0@ == name by {
            if name != entries[n].0@ {
                assert(table(front).contains_key(name));
                let i = choose|i: int| 0 <= i < front.len() && (#[trigger] front[i]).0@ == name;
                assert(entries[i].0@ == name);
            } else {
                assert(entries[n].0@ == name);
            }
        }
    }
}

/// Replacing the patterns of an entry overrides its name in the table.
proof fn lemma_table_update(entries: Seq<(String, Vec<String>)>, k: int, e: (String, Vec<String>))
    requires
        distinct(entries),
        0 <= k < entries.len(),
        e.0@ == entries[k].0@,
    ensures
        distinct(entries.update(k, e)),
        table(entries.update(k, e)) == table(entries).insert(e.0@, string_views(e.1@)),
    decreases entries.len(),
{
    let changed = entries.update(k, e);
    let n = entries.len() - 1;
    assert forall|i: int, j: int| 0 <= i < j < changed.len() implies (#[trigger] changed[i]).0@ != (
    #[trigger] changed[j]).0@ by {
        assert(entries[i].0@ != entries[j].0@);
    }
    let front = entries.drop_last();
    if k == n {
        assert(changed.drop_last() =~= front);
        assert(table(changed) =~= table(entries).insert(e.0@, string_views(e.1@)));
    } else {
        assert forall|i: int, j: int| 0 <= i < j < front.len() implies (#[trigger] front[i]).0@ != (
        #[trigger] front[j]).0@ by {
            assert(entries[i].0@ != entries[j].0@);
        }
        lemma_table_update(front, k, e);
        assert(changed.drop_last() =~= front.update(k, e));
        assert(entries[k].0@ != entries[n].0@);
        assert(table(changed) =~= table(entries).insert(e.0@, string_views(e.1@)));
    }
}

impl Kinds {
    #[verifier::type_invariant]
    spec fn names_are_distinct(self) -> bool {
        distinct(self.entries@)
    }

    /// An empty table.
    pub fn new() -> (res: Self)
        ensures
            res@ == Map::<Seq<char>, Seq<Seq<char>>>::empty(),
    {
        Kinds { entries: Vec::new() }
    }

    /// The position of the entry with the given name.
    fn position(entries: &Vec<(String, Vec<String>)>, name: &str) -> (res: Option<usize>)
        ensures
            match res {
                Some(i) => i < entries@.len() && entries@[i as int].0@ == name@,
                None => forall|i: int|
                    0 <= i < entries@.len() ==> (#[trigger] entries@[i]).0@ != name@,
            },
    {
        for i in 0..entries.len()
            invariant
                forall|j: int| 0 <= j < i ==> (#[trigger] entries@[j]).0@ != name@,
        {
            if same_text(entries[i].0.as_str(), name) {
                return Some(i);
            }
        }
        None
    }

    /// The prompt patterns of the kind `name`.
    pub fn get(&self, name: &str) -> (res: Option<&Vec<String>>)
        ensures
            match res {
                Some(patterns) => self@.contains_pair(name@, string_views(patterns@)),
                None => !self@.contains_key(name@),
            },
    {
        proof {
            use_type_invariant(self);
            lemma_table(self.entries@);
        }
        match Self::position(&self.entries, name) {
            Some(i) => Some(&self.entries[i].1),
            None => None,
        }
    }

    /// True when there is a kind `name`.
    pub fn contains_key(&self, name: &str) -> (res: bool)
        ensures
            res == self@.contains_key(name@),
    {
        self.get(name).is_some()
    }

    /// Sets the patterns of the kind `name`, in place of those it had.
    pub fn insert(&mut self, name: String, patterns: Vec<String>)
        ensures
            final(self)@ == old(self)@.insert(name@, string_views(patterns@)),
    {
        proof {
            use_type_invariant(&*self);
        }
        let mut entries: Vec<(String, Vec<String>)> = Vec::new();
        std::mem::swap(&mut entries, &mut self.entries);
        let ghost before = entries@;
        match Self::position(&entries, name.as_str()) {
            Some(i) => {
                proof {
                    lemma_table_update(before, i as int, (name, patterns));
                }
                entries.set(i, (name, patterns));
            },
            None => {
                entries.push((name, patterns));
                assert(entries@.drop_last() =~= before);
            },
        }
        self.entries = entries;
    }
}

/// The built-in kinds.
pub open spec fn builtin_kinds() -> Map<Seq<char>, Seq<Seq<char>>> {
    Map::empty()
        .insert("python"@, seq![r"^>>> "@])
        .insert("ipython"@, seq![r"^In \[\d+\]: "@])
        .insert("bash"@, seq![r"^[^$#]+[$#] *"@])
        .insert("sh"@, seq![r"^[^$#]+[$#] *"@])
        .insert("zsh"@, seq![r"^[^$+][$#] *"@])
        .insert("node"@, seq![r"^> "@])
        .insert("irb"@, seq![r"^irb\(.*\):\d+(:\d+)?> *"@])
        .insert("iex"@, seq![r"^iex\(\d+\)> $"@])
        .insert(
            "lisp"@,
            seq![
                r"^\? "@,
                r"^\* "@,
                r"^\*$"@,
                r"^[A-Za-z0-9.-]+> "@,
                r"^ *[0-9]+(\[[0-9]+\]|\]) ?"@,
            ],
        )
        .insert(
            "sbcl"@,
            seq![
                r"^\* "@,
                r"^\*$"@,
                r"^ *[0-9]+(\[[0-9]+\]|\]) ?"@,
                r"^ldb> "@,
                r"^[A-Za-z0-9.-]+> "@,
            ],
        )
        .insert("goose"@, seq![r"🪿 Enter to send.*"@])
}

/// Adds a kind with one pattern.
fn add_kind(kinds: &mut Kinds, name: &str, pattern: &str)
    ensures
        final(kinds)@ == old(kinds)@.insert(name@, seq![pattern@]),
{
    let patterns = owned(&[pattern]);
    assert(string_views(patterns@) =~= seq![pattern@]);
    kinds.insert(name.to_string(), patterns);
}

/// The built-in kinds.
pub fn builtin() -> (res: Kinds)
    ensures
        res@ == builtin_kinds(),
{
    let mut kinds = Kinds::new();
    add_kind(&mut kinds, "python", r"^>>> ");
    add_kind(&mut kinds, "ipython", r"^In \[\d+\]: ");
    add_kind(&mut kinds, "bash", r"^[^$#]+[$#] *");
    add_kind(&mut kinds, "sh", r"^[^$#]+[$#] *");
    add_kind(&mut kinds, "zsh", r"^[^$+][$#] *");
    add_kind(&mut kinds, "node", r"^> ");
    // Ruby 3 prints `irb(main):001> `, older irb one more field, as in
    // `irb(main):001:0> `; the pattern matches both.
    add_kind(&mut kinds, "irb", r"^irb\(.*\):\d+(:\d+)?> *");
    add_kind(&mut kinds, "iex", r"^iex\(\d+\)> $");
    // A debugger prompt is a command boundary too: the user can type at it.
    // In order: CCL, the top level with a command, the bare top level, a
    // package prompt, the numbered debugger.
    let lisp = owned(
        &[
            r"^\? ",
            r"^\* ",
            r"^\*$",
            r"^[A-Za-z0-9.-]+> ",
            r"^ *[0-9]+(\[[0-9]+\]|\]) ?",
        ],
    );
    assert(string_views(lisp@) =~= seq![
        r"^\? "@,
        r"^\* "@,
        r"^\*$"@,
        r"^[A-Za-z0-9.-]+> "@,
        r"^ *[0-9]+(\[[0-9]+\]|\]) ?"@,
    ]);
    kinds.insert("lisp".to_string(), lisp);
    // Like `lisp`, and the low-level debugger's `ldb> `.
    let sbcl = owned(
        &[
            r"^\* ",
            r"^\*$",
            r"^ *[0-9]+(\[[0-9]+\]|\]) ?",
            r"^ldb> ",
            r"^[A-Za-z0-9.-]+> ",
        ],
    );
    assert(string_views(sbcl@) =~= seq![
        r"^\* "@,
        r"^\*$"@,
        r"^ *[0-9]+(\[[0-9]+\]|\]) ?"@,
        r"^ldb> "@,
        r"^[A-Za-z0-9.-]+> "@,
    ]);
    kinds.insert("sbcl".to_string(), sbcl);
    // The footer line of the ready state.
    add_kind(&mut kinds, "goose", r"🪿 Enter to send.*");
    kinds
}

/// What a JSON object gives for one kind: a string, an array with its strings
/// (`None` for an element of another type), or a value of another type.
pub enum KindValue {
    Text(String),
    List(Vec<Option<String>>),
    Other,
}

/// The contents of a [`KindValue`].
pub enum KindValueView {
    Text(Seq<char>),
    List(Seq<Option<Seq<char>>>),
    Other,
}

impl View for KindValue {
    type V = KindValueView;

    open spec fn view(&self) -> KindValueView {
        match self {
            KindValue::Text(s) => KindValueView::Text(s@),
            KindValue::List(items) => KindValueView::List(
                Seq::new(items@.len(), |i: int| opt_view(items@[i])),
            ),
            KindValue::Other => KindValueView::Other,
        }
    }
}

/// The contents of the members of a JSON object.
pub open spec fn member_views(members: Seq<(String, KindValue)>) -> Seq<
    (Seq<char>, KindValueView),
> {
    Seq::new(members.len(), |i: int| (members[i].0@, members[i].1@))
}

/// The reason for which the `serde_json` crate refuses a text.
#[verifier::external_type_specification]
#[verifier::external_body]
pub struct ExJsonError(Error);

/// What `serde_json::from_str` reads in a text: the members of an object, in
/// the order in which its map hands them out, or `None` for a value of another
/// type.
pub uninterp spec fn json_members(text: Seq<char>) -> Result<
    Option<Seq<(Seq<char>, KindValueView)>>,
    Error,
>;

/// What `Display` writes for a refusal of `serde_json`.
pub uninterp spec fn json_error_text(e: Error) -> Seq<char>;

/// Calls `serde_json::from_str` for a JSON value and takes it apart: the names
/// and values of an object, and nothing of any other value. What comes out
/// depends on the text alone.
#[verifier::external_body]
fn read_json(text: &str) -> (res: Result<Option<Vec<(String, KindValue)>>, Error>)
    ensures
        match res {
            Ok(Some(members)) => json_members(text@) == Ok::<_, Error>(
                Some(member_views(members@)),
            ),
            Ok(None) => json_members(text@) == Ok::<
                Option<Seq<(Seq<char>, KindValueView)>>,
                Error,
            >(None),
            Err(e) => json_members(text@) == Err::<Option<Seq<(Seq<char>, KindValueView)>>, _>(e),
        },
{
    let plain = |item: Value| match item {
        Value::String(s) => Some(s),
        _ => None,
    };
    let kind = |value: Value| match value {
        Value::String(s) => KindValue::Text(s),
        Value::Array(items) => KindValue::List(items.into_iter().map(plain).collect()),
        _ => KindValue::Other,
    };
    serde_json::from_str::<Value>(text).map(|value| match value {
        Value::Object(map) => Some(map.into_iter().map(|(k, v)| (k, kind(v))).collect()),
        _ => None,
    })
}

/// Writes a refusal of `serde_json` with its `Display`.
#[verifier::external_body]
fn show_json_error(e: &Error) -> (res: String)
    ensures
        res@ == json_error_text(*e),
{
    format!("{}", e)
}

/// The strings among the elements of an array.
pub open spec fn strings_in(items: Seq<Option<Seq<char>>>) -> Seq<Seq<char>>
    decreases items.len(),
{
    if items.len() == 0 {
        Seq::empty()
    } else {
        match items.last() {
            Some(s) => strings_in(items.drop_last()).push(s),
            None => strings_in(items.drop_last()),
        }
    }
}

/// The patterns that a member gives, or `None` when it is neither a string nor
/// an array.
pub open spec fn member_patterns(value: KindValueView) -> Option<Seq<Seq<char>>> {
    match value {
        KindValueView::Text(s) => Some(seq![s]),
        KindValueView::List(items) => Some(strings_in(items)),
        KindValueView::Other => None,
    }
}

/// `kinds` with the patterns of each member set in turn. A member without
/// patterns changes nothing.
pub open spec fn merged(
    kinds: Map<Seq<char>, Seq<Seq<char>>>,
    members: Seq<(Seq<char>, KindValueView)>,
) -> Map<Seq<char>, Seq<Seq<char>>>
    decreases members.len(),
{
    if members.len() == 0 {
        kinds
    } else {
        let before = merged(kinds, members.drop_last());
        let (name, value) = members.last();
        match member_patterns(value) {
            Some(patterns) => if patterns.len() > 0 {
                before.insert(name, patterns)
            } else {
                before
            },
            None => before,
        }
    }
}

/// What is said of a member that is neither a string nor an array.
pub open spec fn bad_kind_text(name: Seq<char>) -> Seq<char> {
    "muxxy: WARNING: kind "@ + debug_text(name)
        + " in TMUX_REPL_KINDS must be a string or array of strings; ignoring."@
}

/// One warning for each member that is neither a string nor an array.
pub open spec fn merge_warnings(members: Seq<(Seq<char>, KindValueView)>) -> Seq<Seq<char>>
    decreases members.len(),
{
    if members.len() == 0 {
        Seq::empty()
    } else {
        let before = merge_warnings(members.drop_last());
        let (name, value) = members.last();
        if member_patterns(value) is None {
            before.push(bad_kind_text(name))
        } else {
            before
        }
    }
}

/// The strings among the elements of an array.
fn collect_strings(items: &Vec<Option<String>>) -> (res: Vec<String>)
    ensures
        string_views(res@) == strings_in(Seq::new(items@.len(), |i: int| opt_view(items@[i]))),
{
    let ghost all = Seq::new(items@.len(), |i: int| opt_view(items@[i]));
    let mut out: Vec<String> = Vec::new();
    assert(string_views(out@) =~= Seq::<Seq<char>>::empty());
    assert(all.take(0) =~= Seq::empty());
    for i in 0..items.len()
        invariant
            all == Seq::new(items@.len(), |i: int| opt_view(items@[i])),
            string_views(out@) == strings_in(all.take(i as int)),
    {
        let ghost before = out@;
        assert(all.take(i + 1).drop_last() =~= all.take(i as int));
        assert(all.take(i + 1).last() == opt_view(items@[i as int]));
        if let Some(s) = &items[i] {
            out.push(s.clone());
            assert(string_views(out@) =~= string_views(before).push(s@));
        }
    }
    assert(all.take(items@.len() as int) =~= all);
    out
}

/// Sets the patterns of each member in `kinds`, in turn, and returns one
/// warning for each member that is neither a string nor an array.
pub fn merge(kinds: &mut Kinds, members: Vec<(String, KindValue)>) -> (res: Vec<String>)
    ensures
        final(kinds)@ == merged(old(kinds)@, member_views(members@)),
        string_views(res@) == merge_warnings(member_views(members@)),
{
    let ghost all = member_views(members@);
    let mut warnings: Vec<String> = Vec::new();
    assert(all.take(0) =~= Seq::empty());
    assert(string_views(warnings@) =~= Seq::<Seq<char>>::empty());
    for i in 0..members.len()
        invariant
            all == member_views(members@),
            kinds@ == merged(old(kinds)@, all.take(i as int)),
            string_views(warnings@) == merge_warnings(all.take(i as int)),
    {
        let ghost said = warnings@;
        assert(all.take(i + 1).drop_last() =~= all.take(i as int));
        assert(all.take(i + 1).last() == (members@[i as int].0@, members@[i as int].1@));
        match &members[i].1 {
            KindValue::Text(s) => {
                let patterns = owned(&[s.as_str()]);
                assert(string_views(patterns@) =~= seq![s@]);
                kinds.insert(members[i].0.clone(), patterns);
            },
            KindValue::List(items) => {
                let patterns = collect_strings(items);
                if patterns.len() > 0 {
                    kinds.insert(members[i].0.clone(), patterns);
                }
            },
            KindValue::Other => {
                let mut warning = "muxxy: WARNING: kind ".to_string();
                warning.append(show_debug(members[i].0.as_str()).as_str());
                warning.append(
                    " in TMUX_REPL_KINDS must be a string or array of strings; ignoring.",
                );
                warnings.push(warning);
                assert(string_views(warnings@) =~= string_views(said).push(warning@));
            },
        }
    }
    assert(all.take(members@.len() as int) =~= all);
    warnings
}

/// The kinds in force and the warnings to print, when the variable
/// `TMUX_REPL_KINDS` has the value `raw`.
pub open spec fn loaded(raw: Option<Seq<char>>) -> (
    Map<Seq<char>, Seq<Seq<char>>>,
    Seq<Seq<char>>,
) {
    match raw {
        None => (builtin_kinds(), Seq::empty()),
        Some(raw) => if trimmed(raw).len() == 0 {
            (builtin_kinds(), Seq::empty())
        } else {
            match json_members(trimmed(raw)) {
                Err(e) => (
                    builtin_kinds(),
                    seq![
                        "muxxy: WARNING: could not parse TMUX_REPL_KINDS ("@ + json_error_text(e)
                            + "); ignoring."@,
                    ],
                ),
                Ok(None) => (
                    builtin_kinds(),
                    seq!["muxxy: WARNING: TMUX_REPL_KINDS must be a JSON object; ignoring."@],
                ),
                Ok(Some(members)) => (merged(builtin_kinds(), members), merge_warnings(members)),
            }
        },
    }
}

/// The kinds in force, and the warnings to print: the built-in kinds, merged
/// with those that `raw`, the value of the variable `TMUX_REPL_KINDS`, gives as
/// a JSON object from names to a pattern or an array of patterns. What `raw`
/// gives overrides.
pub fn load(raw: Option<&str>) -> (res: (Kinds, Vec<String>))
    ensures
        raw matches Some(raw) ==> (res.0@, string_views(res.1@)) == loaded(Some(raw@)),
        raw is None ==> (res.0@, string_views(res.1@)) == loaded(None),
{
    let mut kinds = builtin();
    let mut warnings: Vec<String> = Vec::new();
    assert(string_views(warnings@) =~= Seq::<Seq<char>>::empty());
    let raw = match raw {
        Some(raw) => trim(raw),
        None => {
            return (kinds, warnings);
        },
    };
    if raw.is_empty() {
        return (kinds, warnings);
    }
    match read_json(raw) {
        Err(e) => {
            let mut warning = "muxxy: WARNING: could not parse TMUX_REPL_KINDS (".to_string();
            warning.append(show_json_error(&e).as_str());
            warning.append("); ignoring.");
            warnings.push(warning);
            assert(string_views(warnings@) =~= seq![warning@]);
        },
        Ok(None) => {
            let warning =
                "muxxy: WARNING: TMUX_REPL_KINDS must be a JSON object; ignoring.".to_string();
            warnings.push(warning);
            assert(string_views(warnings@) =~= seq![warning@]);
        },
        Ok(Some(members)) => {
            warnings = merge(&mut kinds, members);
        },
    }
    (kinds, warnings)
}

/// A member gives patterns: it is a string or an array with a string in it.
pub open spec fn gives_patterns(value: KindValueView) -> bool {
    member_patterns(value) matches Some(patterns) && patterns.len() > 0
}

/// What a member gives overrides: the name of a member with patterns maps to
/// them, unless a later member gives patterns for the same name.
pub proof fn law_members_override(
    kinds: Map<Seq<char>, Seq<Seq<char>>>,
    members: Seq<(Seq<char>, KindValueView)>,
    i: int,
)
    requires
        0 <= i < members.len(),
        gives_patterns(members[i].1),
        forall|j: int|
            i < j < members.len() && gives_patterns((#[trigger] members[j]).1) ==> members[j].0
                != members[i].0,
    ensures
        merged(kinds, members).contains_key(members[i].0),
        Some(merged(kinds, members)[members[i].0]) == member_patterns(members[i].1),
    decreases members.len(),
{
    let front = members.drop_last();
    if i < front.len() {
        assert forall|j: int|
            i < j < front.len() && gives_patterns((#[trigger] front[j]).1) implies front[j].0
            != front[i].0 by {
            assert(members[j].0 != members[i].0);
        }
        law_members_override(kinds, front, i);
        assert(members.last() == members[members.len() - 1]);
    }
}

/// A name for which no member gives patterns keeps what it had: a built-in
/// kind stays, and no kind appears from nowhere.
pub proof fn law_other_kinds_stay(
    kinds: Map<Seq<char>, Seq<Seq<char>>>,
    members: Seq<(Seq<char>, KindValueView)>,
    name: Seq<char>,
)
    requires
        forall|i: int|
            0 <= i < members.len() && gives_patterns((#[trigger] members[i]).1) ==> members[i].0
                != name,
    ensures
        merged(kinds, members).contains_key(name) == kinds.contains_key(name),
        kinds.contains_key(name) ==> merged(kinds, members)[name] == kinds[name],
    decreases members.len(),
{
    if members.len() > 0 {
        let front = members.drop_last();
        assert forall|i: int|
            0 <= i < front.len() && gives_patterns((#[trigger] front[i]).1) implies front[i].0
            != name by {
            assert(members[i].0 != name);
        }
        law_other_kinds_stay(kinds, front, name);
        assert(members.last() == members[members.len() - 1]);
    }
}

/// The names of the built-in kinds, and no others.
pub proof fn law_builtin_names(name: Seq<char>)
    ensures
        builtin_kinds().contains_key(name) <==> seq![
            "python"@,
            "ipython"@,
            "bash"@,
            "sh"@,
            "zsh"@,
            "node"@,
            "irb"@,
            "iex"@,
            "lisp"@,
            "sbcl"@,
            "goose"@,
        ].contains(name),
{
    let names = seq![
        "python"@,
        "ipython"@,
        "bash"@,
        "sh"@,
        "zsh"@,
        "node"@,
        "irb"@,
        "iex"@,
        "lisp"@,
        "sbcl"@,
        "goose"@,
    ];
    assert(names[0] == "python"@ && names[1] == "ipython"@ && names[2] == "bash"@);
    assert(names[3] == "sh"@ && names[4] == "zsh"@ && names[5] == "node"@);
    assert(names[6] == "irb"@ && names[7] == "iex"@ && names[8] == "lisp"@);
    assert(names[9] == "sbcl"@ && names[10] == "goose"@);
}

/// What a member gives: a string gives itself, an array its strings in order,
/// and a value of another type nothing.
pub proof fn law_what_a_member_gives(text: Seq<char>, items: Seq<Option<Seq<char>>>)
    ensures
        member_patterns(KindValueView::Text(text)) == Some(seq![text]),
        member_patterns(KindValueView::List(items)) == Some(
            items.filter(|item: Option<Seq<char>>| item is Some).map_values(
                |item: Option<Seq<char>>| item->0,
            ),
        ),
        member_patterns(KindValueView::Other) is None,
        gives_patterns(KindValueView::Text(text)),
        gives_patterns(KindValueView::List(items)) <==> exists|i: int|
            0 <= i < items.len() && #[trigger] items[i] is Some,
        !gives_patterns(KindValueView::Other),
{
    lemma_strings_in(items);
}

proof fn lemma_strings_in(items: Seq<Option<Seq<char>>>)
    ensures
        strings_in(items) == items.filter(|item: Option<Seq<char>>| item is Some).map_values(
            |item: Option<Seq<char>>| item->0,
        ),
        strings_in(items).len() > 0 <==> exists|i: int|
            0 <= i < items.len() && #[trigger] items[i] is Some,
    decreases items.len(),
{
    reveal(Seq::filter);
    let strings = items.filter(|item: Option<Seq<char>>| item is Some);
    if items.len() > 0 {
        let front = items.drop_last();
        lemma_strings_in(front);
        assert(items.last() == items[items.len() - 1]);
        if exists|i: int| 0 <= i < items.len() && #[trigger] items[i] is Some {
            let i = choose|i: int| 0 <= i < items.len() && #[trigger] items[i] is Some;
            if i < front.len() {
                assert(front[i] is Some);
            }
        }
        if exists|i: int| 0 <= i < front.len() && #[trigger] front[i] is Some {
            let i = choose|i: int| 0 <= i < front.len() && #[trigger] front[i] is Some;
            assert(items[i] is Some);
        }
    }
    assert(strings_in(items) =~= strings.map_values(|item: Option<Seq<char>>| item->0));
}

/// There is one warning for each member that is neither a string nor an array,
/// and no other, in the order of the members; it names the member.
pub proof fn law_one_warning_per_bad_member(members: Seq<(Seq<char>, KindValueView)>)
    ensures
        merge_warnings(members) == members.filter(
            |m: (Seq<char>, KindValueView)| m.1 is Other,
        ).map_values(
            |m: (Seq<char>, KindValueView)|
                "muxxy: WARNING: kind "@ + debug_text(m.0)
                    + " in TMUX_REPL_KINDS must be a string or array of strings; ignoring."@,
        ),
    decreases members.len(),
{
    reveal(Seq::filter);
    let bad = members.filter(|m: (Seq<char>, KindValueView)| m.1 is Other);
    if members.len() > 0 {
        law_one_warning_per_bad_member(members.drop_last());
    }
    assert(merge_warnings(members) =~= bad.map_values(
        |m: (Seq<char>, KindValueView)|
            "muxxy: WARNING: kind "@ + debug_text(m.0)
                + " in TMUX_REPL_KINDS must be a string or array of strings; ignoring."@,
    ));
}

/// The built-in kinds stand alone, without a warning, when the variable is not
/// set or blank, and with one warning when it is no JSON or no object. The
/// members of an object are merged into them.
pub proof fn law_what_is_loaded(raw: Seq<char>)
    ensures
        loaded(None) == (builtin_kinds(), Seq::<Seq<char>>::empty()),
        blank(raw) ==> loaded(Some(raw)) == (builtin_kinds(), Seq::<Seq<char>>::empty()),
        !blank(raw) ==> match json_members(trimmed(raw)) {
            Err(e) => loaded(Some(raw)) == (
                builtin_kinds(),
                seq![
                    "muxxy: WARNING: could not parse TMUX_REPL_KINDS ("@ + json_error_text(e)
                        + "); ignoring."@,
                ],
            ),
            Ok(None) => loaded(Some(raw)) == (
                builtin_kinds(),
                seq!["muxxy: WARNING: TMUX_REPL_KINDS must be a JSON object; ignoring."@],
            ),
            Ok(Some(members)) => loaded(Some(raw)) == (
                merged(builtin_kinds(), members),
                merge_warnings(members),
            ),
        },
{
    law_trimmed(raw);
}

/// Whitespace around the variable's value changes nothing.
pub proof fn law_loading_ignores_whitespace(before: Seq<char>, raw: Seq<char>, after: Seq<char>)
    requires
        blank(before),
        blank(after),
        raw.len() > 0,
        !whitespace(raw.first()),
        !whitespace(raw.last()),
    ensures
        loaded(Some(before + raw + after)) == loaded(Some(raw)),
{
    law_trimming_keeps_the_rest(before, raw, after);
    law_trimming_keeps_the_rest(Seq::empty(), raw, Seq::empty());
    assert(Seq::<char>::empty() + raw + Seq::<char>::empty() =~= raw);
}

/// The contents of members are all of them, in order, each with its value.
pub proof fn law_member_contents(
    members: Seq<(String, KindValue)>,
    s: String,
    items: Vec<Option<String>>,
)
    ensures
        member_views(members).len() == members.len(),
        forall|i: int|
            0 <= i < members.len() ==> #[trigger] member_views(members)[i] == (
                members[i].0@,
                members[i].1@,
            ),
        KindValue::Text(s)@ == KindValueView::Text(s@),
        KindValue::Other@ == KindValueView::Other,
        KindValue::List(items)@ matches KindValueView::List(contents) && contents.len()
            == items@.len() && forall|i: int|
            0 <= i < items@.len() ==> #[trigger] contents[i] == opt_view(items@[i]),
{
}

}
