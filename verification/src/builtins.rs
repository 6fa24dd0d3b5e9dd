//! The registry of builtin commands: their paths, aliases and signatures,
//! the resolution of command words to a builtin, and the help texts.
use vstd::prelude::*;

use crate::text::{
    char_is_ws, is_ws, join, lemma_join_push, pad_right, push_padded, push_str, str_eq, to_chars,
};

verus! {

#[derive(Debug, Clone, Copy, PartialEq, Eq, Structural)]
pub enum BuiltinId {
    Help,
    FsRead,
    FsPwd,
    FsLs,
    Cd,
    EnvGet,
    EnvSet,
    EnvUnset,
    EnvList,
    MapEach,
    Filter,
    Lines,
}

#[derive(Debug, Clone, Copy, PartialEq, Eq, Structural)]
pub enum BuiltinStyle {
    CommandOnly,
    FunctionOnly,
    Both,
}

#[derive(Debug, Clone, Copy, PartialEq, Eq, Structural)]
pub enum ValueKind {
    NoValue,
    Any,
    String,
    List,
    Function,
    Object,
    Path,
    EnvName,
}

#[derive(Debug, Clone, Copy, PartialEq, Eq)]
pub struct BuiltinArgSpec {
    pub name: &'static str,
    pub kind: ValueKind,
    pub optional: bool,
    pub variadic: bool,
}

#[derive(Debug, Clone, Copy, PartialEq, Eq)]
pub struct BuiltinSpec {
    pub id: BuiltinId,
    pub path: &'static [&'static str],
    pub aliases: &'static [&'static str],
    pub description: &'static str,
    pub style: BuiltinStyle,
    pub input: ValueKind,
    pub output: ValueKind,
    pub args: &'static [BuiltinArgSpec],
    pub mutates_shell: bool,
}

/// A resolved builtin and how many command words its path or alias used.
#[derive(Debug, Clone, Copy)]
pub struct BuiltinMatch {
    pub spec: BuiltinSpec,
    pub consumed: usize,
}

// ---------------------------------------------------------------------------
// Views
// ---------------------------------------------------------------------------

pub struct ArgView {
    pub name: Seq<char>,
    pub kind: ValueKind,
    pub optional: bool,
    pub variadic: bool,
}

pub struct BuiltinSpecView {
    pub id: BuiltinId,
    pub path: Seq<Seq<char>>,
    pub aliases: Seq<Seq<char>>,
    pub description: Seq<char>,
    pub style: BuiltinStyle,
    pub input: ValueKind,
    pub output: ValueKind,
    pub args: Seq<ArgView>,
    pub mutates_shell: bool,
}

/// The texts of a sequence of string slices.
pub open spec fn strs_view(s: Seq<&'static str>) -> Seq<Seq<char>> {
    s.map_values(|x: &'static str| x@)
}

impl View for BuiltinArgSpec {
    type V = ArgView;

    open spec fn view(&self) -> ArgView {
        ArgView { name: self.name@, kind: self.kind, optional: self.optional, variadic: self.variadic }
    }
}

impl View for BuiltinSpec {
    type V = BuiltinSpecView;

    open spec fn view(&self) -> BuiltinSpecView {
        BuiltinSpecView {
            id: self.id,
            path: strs_view(self.path@),
            aliases: strs_view(self.aliases@),
            description: self.description@,
            style: self.style,
            input: self.input,
            output: self.output,
            args: self.args@.map_values(|a: BuiltinArgSpec| a@),
            mutates_shell: self.mutates_shell,
        }
    }
}

// ---------------------------------------------------------------------------
// The registry
// ---------------------------------------------------------------------------

pub open spec fn arg_view(name: Seq<char>, kind: ValueKind, optional: bool, variadic: bool) -> ArgView {
    ArgView { name, kind, optional, variadic }
}

pub open spec fn path_arg() -> Seq<ArgView> {
    seq![arg_view("path"@, ValueKind::Path, false, false)]
}

pub open spec fn optional_path_arg() -> Seq<ArgView> {
    seq![arg_view("path"@, ValueKind::Path, true, false)]
}

pub open spec fn env_name_arg() -> Seq<ArgView> {
    seq![arg_view("name"@, ValueKind::EnvName, false, false)]
}

pub open spec fn env_set_args() -> Seq<ArgView> {
    seq![
        arg_view("name"@, ValueKind::EnvName, false, false),
        arg_view("value"@, ValueKind::Any, false, false),
    ]
}

pub open spec fn map_filter_args() -> Seq<ArgView> {
    seq![
        arg_view("items"@, ValueKind::List, false, false),
        arg_view("callback"@, ValueKind::Function, false, false),
    ]
}

pub open spec fn lines_args() -> Seq<ArgView> {
    seq![arg_view("text"@, ValueKind::String, false, false)]
}

pub open spec fn help_args() -> Seq<ArgView> {
    seq![arg_view("builtin_path"@, ValueKind::String, true, true)]
}

pub open spec fn entry(
    id: BuiltinId,
    path: Seq<Seq<char>>,
    aliases: Seq<Seq<char>>,
    description: Seq<char>,
    input: ValueKind,
    output: ValueKind,
    args: Seq<ArgView>,
    mutates_shell: bool,
) -> BuiltinSpecView {
    BuiltinSpecView {
        id,
        path,
        aliases,
        description,
        style: BuiltinStyle::Both,
        input,
        output,
        args,
        mutates_shell,
    }
}

/// The builtins, in registry order.
pub open spec fn builtin_table() -> Seq<BuiltinSpecView> {
    seq![
        entry(BuiltinId::Help, seq!["help"@], seq![], "Show builtin help and available commands."@, ValueKind::NoValue, ValueKind::String, help_args(), false),
        entry(BuiltinId::FsRead, seq!["fs"@, "read"@], seq!["cat"@], "Read a file into a string."@, ValueKind::NoValue, ValueKind::String, path_arg(), false),
        entry(BuiltinId::FsPwd, seq!["fs"@, "pwd"@], seq!["pwd"@], "Return the current working directory."@, ValueKind::NoValue, ValueKind::String, seq![], false),
        entry(BuiltinId::FsLs, seq!["fs"@, "ls"@], seq!["ls"@], "List directory entries."@, ValueKind::NoValue, ValueKind::List, optional_path_arg(), false),
        entry(BuiltinId::Cd, seq!["cd"@], seq![], "Change the live shell working directory."@, ValueKind::NoValue, ValueKind::String, optional_path_arg(), true),
        entry(BuiltinId::EnvGet, seq!["env"@, "get"@], seq![], "Read an environment variable from the live shell session."@, ValueKind::NoValue, ValueKind::Any, env_name_arg(), false),
        entry(BuiltinId::EnvSet, seq!["env"@, "set"@], seq![], "Set an environment variable in the live shell session."@, ValueKind::NoValue, ValueKind::String, env_set_args(), true),
        entry(BuiltinId::EnvUnset, seq!["env"@, "unset"@], seq![], "Remove an environment variable from the live shell session."@, ValueKind::NoValue, ValueKind::NoValue, env_name_arg(), true),
        entry(BuiltinId::EnvList, seq!["env"@, "list"@], seq![], "Return the current environment as an object."@, ValueKind::NoValue, ValueKind::Object, seq![], false),
        entry(BuiltinId::MapEach, seq!["map"@], seq![], "Transform each item in a list with a callback."@, ValueKind::List, ValueKind::List, map_filter_args(), false),
        entry(BuiltinId::Filter, seq!["filter"@], seq![], "Keep list items where the callback returns truthy."@, ValueKind::List, ValueKind::List, map_filter_args(), false),
        entry(BuiltinId::Lines, seq!["lines"@], seq![], "Split a string into a list of lines."@, ValueKind::String, ValueKind::List, lines_args(), false),
    ]
}

/// Number of registered builtins.
pub const BUILTIN_COUNT: usize = 12;

fn arg(name: &'static str, kind: ValueKind, optional: bool, variadic: bool) -> (r: BuiltinArgSpec)
    ensures
        r@ == arg_view(name@, kind, optional, variadic),
{
    BuiltinArgSpec { name, kind, optional, variadic }
}

/// The builtin at position `i` of the registry.
pub fn builtin_at(i: usize) -> (r: BuiltinSpec)
    requires
        i < BUILTIN_COUNT,
    ensures
        r@ == builtin_table()[i as int],
{
    let no_args: &'static [BuiltinArgSpec] = &[];
    let no_words: &'static [&'static str] = &[];
    let r = if i == 0 {
        BuiltinSpec {
            id: BuiltinId::Help,
            path: &["help"],
            aliases: no_words,
            description: "Show builtin help and available commands.",
            style: BuiltinStyle::Both,
            input: ValueKind::NoValue,
            output: ValueKind::String,
            args: &[
                BuiltinArgSpec {
                    name: "builtin_path",
                    kind: ValueKind::String,
                    optional: true,
                    variadic: true,
                },
            ],
            mutates_shell: false,
        }
    } else if i == 1 {
        BuiltinSpec {
            id: BuiltinId::FsRead,
            path: &["fs", "read"],
            aliases: &["cat"],
            description: "Read a file into a string.",
            style: BuiltinStyle::Both,
            input: ValueKind::NoValue,
            output: ValueKind::String,
            args: &[
                BuiltinArgSpec {
                    name: "path",
                    kind: ValueKind::Path,
                    optional: false,
                    variadic: false,
                },
            ],
            mutates_shell: false,
        }
    } else if i == 2 {
        BuiltinSpec {
            id: BuiltinId::FsPwd,
            path: &["fs", "pwd"],
            aliases: &["pwd"],
            description: "Return the current working directory.",
            style: BuiltinStyle::Both,
            input: ValueKind::NoValue,
            output: ValueKind::String,
            args: no_args,
            mutates_shell: false,
        }
    } else if i == 3 {
        BuiltinSpec {
            id: BuiltinId::FsLs,
            path: &["fs", "ls"],
            aliases: &["ls"],
            description: "List directory entries.",
            style: BuiltinStyle::Both,
            input: ValueKind::NoValue,
            output: ValueKind::List,
            args: &[
                BuiltinArgSpec {
                    name: "path",
                    kind: ValueKind::Path,
                    optional: true,
                    variadic: false,
                },
            ],
            mutates_shell: false,
        }
    } else if i == 4 {
        BuiltinSpec {
            id: BuiltinId::Cd,
            path: &["cd"],
            aliases: no_words,
            description: "Change the live shell working directory.",
            style: BuiltinStyle::Both,
            input: ValueKind::NoValue,
            output: ValueKind::String,
            args: &[
                BuiltinArgSpec {
                    name: "path",
                    kind: ValueKind::Path,
                    optional: true,
                    variadic: false,
                },
            ],
            mutates_shell: true,
        }
    } else if i == 5 {
        BuiltinSpec {
            id: BuiltinId::EnvGet,
            path: &["env", "get"],
            aliases: no_words,
            description: "Read an environment variable from the live shell session.",
            style: BuiltinStyle::Both,
            input: ValueKind::NoValue,
            output: ValueKind::Any,
            args: &[
                BuiltinArgSpec {
                    name: "name",
                    kind: ValueKind::EnvName,
                    optional: false,
                    variadic: false,
                },
            ],
            mutates_shell: false,
        }
    } else if i == 6 {
        BuiltinSpec {
            id: BuiltinId::EnvSet,
            path: &["env", "set"],
            aliases: no_words,
            description: "Set an environment variable in the live shell session.",
            style: BuiltinStyle::Both,
            input: ValueKind::NoValue,
            output: ValueKind::String,
            args: &[
                BuiltinArgSpec {
                    name: "name",
                    kind: ValueKind::EnvName,
                    optional: false,
                    variadic: false,
                },
                BuiltinArgSpec {
                    name: "value",
                    kind: ValueKind::Any,
                    optional: false,
                    variadic: false,
                },
            ],
            mutates_shell: true,
        }
    } else if i == 7 {
        BuiltinSpec {
            id: BuiltinId::EnvUnset,
            path: &["env", "unset"],
            aliases: no_words,
            description: "Remove an environment variable from the live shell session.",
            style: BuiltinStyle::Both,
            input: ValueKind::NoValue,
            output: ValueKind::NoValue,
            args: &[
                BuiltinArgSpec {
                    name: "name",
                    kind: ValueKind::EnvName,
                    optional: false,
                    variadic: false,
                },
            ],
            mutates_shell: true,
        }
    } else if i == 8 {
        BuiltinSpec {
            id: BuiltinId::EnvList,
            path: &["env", "list"],
            aliases: no_words,
            description: "Return the current environment as an object.",
            style: BuiltinStyle::Both,
            input: ValueKind::NoValue,
            output: ValueKind::Object,
            args: no_args,
            mutates_shell: false,
        }
    } else if i == 9 {
        BuiltinSpec {
            id: BuiltinId::MapEach,
            path: &["map"],
            aliases: no_words,
            description: "Transform each item in a list with a callback.",
            style: BuiltinStyle::Both,
            input: ValueKind::List,
            output: ValueKind::List,
            args: &[
                BuiltinArgSpec {
                    name: "items",
                    kind: ValueKind::List,
                    optional: false,
                    variadic: false,
                },
                BuiltinArgSpec {
                    name: "callback",
                    kind: ValueKind::Function,
                    optional: false,
                    variadic: false,
                },
            ],
            mutates_shell: false,
        }
    } else if i == 10 {
        BuiltinSpec {
            id: BuiltinId::Filter,
            path: &["filter"],
            aliases: no_words,
            description: "Keep list items where the callback returns truthy.",
            style: BuiltinStyle::Both,
            input: ValueKind::List,
            output: ValueKind::List,
            args: &[
                BuiltinArgSpec {
                    name: "items",
                    kind: ValueKind::List,
                    optional: false,
                    variadic: false,
                },
                BuiltinArgSpec {
                    name: "callback",
                    kind: ValueKind::Function,
                    optional: false,
                    variadic: false,
                },
            ],
            mutates_shell: false,
        }
    } else {
        BuiltinSpec {
            id: BuiltinId::Lines,
            path: &["lines"],
            aliases: no_words,
            description: "Split a string into a list of lines.",
            style: BuiltinStyle::Both,
            input: ValueKind::String,
            output: ValueKind::List,
            args: &[
                BuiltinArgSpec {
                    name: "text",
                    kind: ValueKind::String,
                    optional: false,
                    variadic: false,
                },
            ],
            mutates_shell: false,
        }
    };
    assert(r@.path =~= builtin_table()[i as int].path);
    assert(r@.aliases =~= builtin_table()[i as int].aliases);
    assert(r@.args =~= builtin_table()[i as int].args);
    r
}

/// All builtins, in registry order.
pub fn specs() -> (r: Vec<BuiltinSpec>)
    ensures
        r@.len() == builtin_table().len(),
        forall|i: int| 0 <= i < r@.len() ==> #[trigger] r@[i]@ == builtin_table()[i],
{
    let mut r: Vec<BuiltinSpec> = Vec::new();
    let mut i: usize = 0;
    while i < BUILTIN_COUNT
        invariant
            i <= BUILTIN_COUNT,
            r@.len() == i,
            forall|k: int| 0 <= k < i ==> #[trigger] r@[k]@ == builtin_table()[k],
        decreases BUILTIN_COUNT - i,
    {
        r.push(builtin_at(i));
        i = i + 1;
    }
    r
}

/// Position in the registry of the builtin with identifier `id`.
pub open spec fn id_index(id: BuiltinId) -> int {
    match id {
        BuiltinId::Help => 0,
        BuiltinId::FsRead => 1,
        BuiltinId::FsPwd => 2,
        BuiltinId::FsLs => 3,
        BuiltinId::Cd => 4,
        BuiltinId::EnvGet => 5,
        BuiltinId::EnvSet => 6,
        BuiltinId::EnvUnset => 7,
        BuiltinId::EnvList => 8,
        BuiltinId::MapEach => 9,
        BuiltinId::Filter => 10,
        BuiltinId::Lines => 11,
    }
}

/// Every identifier is registered exactly once, at `id_index(id)`.
pub proof fn lemma_ids_unique(id: BuiltinId)
    ensures
        0 <= id_index(id) < builtin_table().len(),
        builtin_table()[id_index(id)].id == id,
        forall|i: int|
            0 <= i < builtin_table().len() && (#[trigger] builtin_table()[i]).id == id ==> i
                == id_index(id),
{
}

/// The registered builtin with identifier `id`.
pub fn find_spec_by_id(id: BuiltinId) -> (r: BuiltinSpec)
    ensures
        r.id == id,
        r@ == builtin_table()[id_index(id)],
{
    let table = specs();
    let mut i: usize = 0;
    while i < table.len()
        invariant
            table@.len() == builtin_table().len(),
            forall|k: int| 0 <= k < table@.len() ==> #[trigger] table@[k]@ == builtin_table()[k],
            i <= id_index(id),
        decreases table@.len() - i,
    {
        if table[i].id == id {
            proof {
                lemma_ids_unique(id);
                assert(table@[i as int]@ == builtin_table()[i as int]);
            }
            return table[i];
        }
        proof {
            lemma_ids_unique(id);
            assert(table@[i as int]@ == builtin_table()[i as int]);
        }
        i = i + 1;
    }
    proof {
        lemma_ids_unique(id);
    }
    assert(false);
    builtin_at(0)
}

// ---------------------------------------------------------------------------
// Words of an alias
// ---------------------------------------------------------------------------

/// The maximal runs of non-white-space characters of `s`, in order.
pub open spec fn words(s: Seq<char>) -> Seq<Seq<char>>
    decreases s.len(),
{
    if s.len() == 0 {
        seq![]
    } else {
        let init = s.drop_last();
        let c = s.last();
        if is_ws(c) {
            words(init)
        } else if init.len() > 0 && !is_ws(init.last()) {
            let w = words(init);
            w.update(w.len() - 1, w.last().push(c))
        } else {
            words(init).push(seq![c])
        }
    }
}

proof fn lemma_words_open(s: Seq<char>)
    requires
        s.len() > 0,
        !is_ws(s.last()),
    ensures
        words(s).len() > 0,
    decreases s.len(),
{
    let init = s.drop_last();
    if init.len() > 0 && !is_ws(init.last()) {
        lemma_words_open(init);
    }
}

/// Views of a vector of character vectors.
pub open spec fn char_vecs_view(v: Seq<Vec<char>>) -> Seq<Seq<char>> {
    v.map_values(|w: Vec<char>| w@)
}

/// The words of `s`, split at white space.
pub fn split_words(s: &str) -> (r: Vec<Vec<char>>)
    ensures
        char_vecs_view(r@) == words(s@),
{
    let cs = to_chars(s);
    let mut out: Vec<Vec<char>> = Vec::new();
    let mut i: usize = 0;
    assert(cs@.take(0) =~= Seq::<char>::empty());
    assert(char_vecs_view(out@) =~= words(cs@.take(0)));
    while i < cs.len()
        invariant
            cs@ == s@,
            i <= cs@.len(),
            char_vecs_view(out@) == words(cs@.take(i as int)),
        decreases cs@.len() - i,
    {
        let c = cs[i];
        let ghost pre = cs@.take(i as int);
        let ghost next = cs@.take(i + 1);
        assert(next.drop_last() =~= pre);
        assert(next.last() == c);
        if char_is_ws(c) {
        } else if i > 0 && !char_is_ws(cs[i - 1]) {
            proof {
                assert(pre.last() == cs@[i - 1]);
                lemma_words_open(pre);
            }
            let mut w = out.pop().unwrap();
            w.push(c);
            out.push(w);
            proof {
                let v = words(pre);
                assert(char_vecs_view(out@) =~= v.update(v.len() - 1, v.last().push(c)));
            }
        } else {
            let mut w: Vec<char> = Vec::new();
            w.push(c);
            out.push(w);
            proof {
                if i > 0 {
                    assert(pre.last() == cs@[i - 1]);
                }
                assert(char_vecs_view(out@) =~= words(pre).push(seq![c]));
            }
        }
        i = i + 1;
    }
    assert(cs@.take(i as int) =~= cs@);
    out
}

// ---------------------------------------------------------------------------
// Resolution
// ---------------------------------------------------------------------------

/// Whether `p` is a prefix of `segs`.
pub open spec fn is_seg_prefix(p: Seq<Seq<char>>, segs: Seq<Seq<char>>) -> bool {
    p.len() <= segs.len() && segs.take(p.len() as int) == p
}

/// Candidates contributed by the first `n` aliases of builtin `i`: the
/// builtin and the number of words of each alias that prefixes `segs`.
pub open spec fn alias_candidates(
    segs: Seq<Seq<char>>,
    aliases: Seq<Seq<char>>,
    i: nat,
    n: nat,
) -> Seq<(nat, nat)>
    decreases n,
{
    if n == 0 {
        seq![]
    } else {
        let rest = alias_candidates(segs, aliases, i, (n - 1) as nat);
        let w = words(aliases[n - 1]);
        if is_seg_prefix(w, segs) {
            rest.push((i, w.len()))
        } else {
            rest
        }
    }
}

/// Candidates contributed by builtin `i`: its path, then its aliases.
pub open spec fn entry_candidates(segs: Seq<Seq<char>>, e: BuiltinSpecView, i: nat) -> Seq<
    (nat, nat),
> {
    (if is_seg_prefix(e.path, segs) {
        seq![(i, e.path.len())]
    } else {
        seq![]
    }) + alias_candidates(segs, e.aliases, i, e.aliases.len())
}

/// Candidates of the first `n` builtins of the registry, in registry order.
pub open spec fn candidates_upto(segs: Seq<Seq<char>>, n: nat) -> Seq<(nat, nat)>
    decreases n,
{
    if n == 0 {
        seq![]
    } else {
        candidates_upto(segs, (n - 1) as nat) + entry_candidates(
            segs,
            builtin_table()[n - 1],
            (n - 1) as nat,
        )
    }
}

/// All candidates for the command words `segs`.
pub open spec fn candidates(segs: Seq<Seq<char>>) -> Seq<(nat, nat)> {
    candidates_upto(segs, builtin_table().len())
}

/// Keeps the current best candidate unless `c` uses strictly more words.
pub open spec fn keep_best(best: Option<(nat, nat)>, c: (nat, nat)) -> Option<(nat, nat)> {
    match best {
        Some(b) => if b.1 >= c.1 {
            best
        } else {
            Some(c)
        },
        None => Some(c),
    }
}

/// The first candidate among those that use the most words.
pub open spec fn best_of(cs: Seq<(nat, nat)>) -> Option<(nat, nat)>
    decreases cs.len(),
{
    if cs.len() == 0 {
        None
    } else {
        keep_best(best_of(cs.drop_last()), cs.last())
    }
}

/// The chosen candidate is one of the candidates.
pub proof fn lemma_best_of_member(cs: Seq<(nat, nat)>)
    ensures
        best_of(cs) matches Some(b) ==> cs.contains(b),
    decreases cs.len(),
{
    if cs.len() > 0 {
        lemma_best_of_member(cs.drop_last());
        if let Some(b) = best_of(cs) {
            if best_of(cs) == best_of(cs.drop_last()) {
                let k = choose|k: int| 0 <= k < cs.drop_last().len() && cs.drop_last()[k] == b;
                assert(cs[k] == b);
            } else {
                assert(cs[cs.len() - 1] == b);
            }
        }
    }
}

/// The builtin that the command words `segs` name, with the number of words
/// its path or alias uses.
pub open spec fn spec_resolve(segs: Seq<Seq<char>>) -> Option<(BuiltinSpecView, nat)> {
    match best_of(candidates(segs)) {
        Some(b) => Some((builtin_table()[b.0 as int], b.1)),
        None => None,
    }
}

/// The view of a match.
pub open spec fn match_view(m: Option<BuiltinMatch>) -> Option<(BuiltinSpecView, nat)> {
    match m {
        Some(m) => Some((m.spec@, m.consumed as nat)),
        None => None,
    }
}

/// Whether the words `w` prefix the command words `segments`.
fn words_prefix(w: &Vec<Vec<char>>, segments: &[&str]) -> (r: bool)
    ensures
        r == is_seg_prefix(char_vecs_view(w@), strs_view(segments@)),
{
    let ghost p = char_vecs_view(w@);
    let ghost segs = strs_view(segments@);
    if w.len() > segments.len() {
        return false;
    }
    let mut k: usize = 0;
    while k < w.len()
        invariant
            p == char_vecs_view(w@),
            segs == strs_view(segments@),
            w@.len() <= segments@.len(),
            k <= w@.len(),
            forall|j: int| 0 <= j < k ==> p[j] == segs[j],
        decreases w@.len() - k,
    {
        let seg = to_chars(segments[k]);
        let word = &w[k];
        if seg.len() != word.len() {
            assert(segs[k as int] != p[k as int]);
            assert(segs.take(p.len() as int)[k as int] == segs[k as int]);
            return false;
        }
        let mut j: usize = 0;
        while j < seg.len()
            invariant
                seg@ == segs[k as int],
                word@ == p[k as int],
                k < p.len(),
                p.len() <= segs.len(),
                p == char_vecs_view(w@),
                segs == strs_view(segments@),
                seg@.len() == word@.len(),
                j <= seg@.len(),
                forall|t: int| 0 <= t < j ==> seg@[t] == word@[t],
            decreases seg@.len() - j,
        {
            if seg[j] != word[j] {
                assert(segs.take(p.len() as int)[k as int] == segs[k as int]);
                assert(segs[k as int] != p[k as int]);
                return false;
            }
            j = j + 1;
        }
        assert(seg@ =~= word@);
        k = k + 1;
    }
    assert(segs.take(p.len() as int) =~= p);
    true
}

/// Whether the path `path` prefixes the command words `segments`.
fn path_prefix(path: &[&str], segments: &[&str]) -> (r: bool)
    ensures
        r == is_seg_prefix(strs_view(path@), strs_view(segments@)),
{
    let ghost p = strs_view(path@);
    let ghost segs = strs_view(segments@);
    if path.len() > segments.len() {
        return false;
    }
    let mut k: usize = 0;
    while k < path.len()
        invariant
            p == strs_view(path@),
            segs == strs_view(segments@),
            path@.len() <= segments@.len(),
            k <= path@.len(),
            forall|j: int| 0 <= j < k ==> p[j] == segs[j],
        decreases path@.len() - k,
    {
        if !str_eq(segments[k], path[k]) {
            assert(segs.take(p.len() as int)[k as int] == segs[k as int]);
            return false;
        }
        k = k + 1;
    }
    assert(segs.take(p.len() as int) =~= p);
    true
}

fn update_best(best: &mut Option<(usize, usize)>, index: usize, consumed: usize)
    ensures
        opt_pair_view(*final(best)) == keep_best(
            opt_pair_view(*old(best)),
            (index as nat, consumed as nat),
        ),
{
    match *best {
        Some(current) => {
            if current.1 >= consumed {
            } else {
                *best = Some((index, consumed));
            }
        },
        None => {
            *best = Some((index, consumed));
        },
    }
}

/// An optional pair of machine integers, as naturals.
pub open spec fn opt_pair_view(p: Option<(usize, usize)>) -> Option<(nat, nat)> {
    match p {
        Some(q) => Some((q.0 as nat, q.1 as nat)),
        None => None,
    }
}

/// Resolves command words to a builtin: the builtin whose path or alias is
/// the longest prefix of `segments`, the earliest in registry order among
/// equally long ones.
pub fn resolve_segments(segments: &[&str]) -> (r: Option<BuiltinMatch>)
    ensures
        match_view(r) == spec_resolve(strs_view(segments@)),
        r is None <==> !exists|i: int, n: nat| #[trigger] names_prefix(strs_view(segments@), i, n),
        r matches Some(m) ==> forall|i: int, n: nat|
            #[trigger] names_prefix(strs_view(segments@), i, n) ==> n <= m.consumed,
        r matches Some(m) ==> exists|i0: int|
            #[trigger] names_prefix(strs_view(segments@), i0, m.consumed as nat)
                && builtin_table()[i0] == m.spec@ && forall|i: int|
                0 <= i < i0 ==> !#[trigger] names_prefix(strs_view(segments@), i, m.consumed as nat),
{
    proof {
        lemma_resolve_prefix_set(strs_view(segments@));
    }
    let ghost segs = strs_view(segments@);
    let table = specs();
    let mut best: Option<(usize, usize)> = None;
    let ghost mut seen: Seq<(nat, nat)> = seq![];
    let mut i: usize = 0;
    while i < table.len()
        invariant
            segs == strs_view(segments@),
            table@.len() == builtin_table().len(),
            forall|k: int| 0 <= k < table@.len() ==> #[trigger] table@[k]@ == builtin_table()[k],
            i <= table@.len(),
            seen == candidates_upto(segs, i as nat),
            opt_pair_view(best) == best_of(seen),
            forall|k: int| 0 <= k < seen.len() ==> #[trigger] seen[k].0 < i,
        decreases table@.len() - i,
    {
        let spec = table[i];
        let ghost e = builtin_table()[i as int];
        assert(spec@ == e);
        let ghost before = seen;
        if path_prefix(spec.path, segments) {
            update_best(&mut best, i, spec.path.len());
            proof {
                let c = (i as nat, spec.path@.len());
                assert((seen.push(c)).drop_last() =~= seen);
                seen = seen.push(c);
            }
        }
        assert(seen == before + (if is_seg_prefix(e.path, segs) {
            seq![(i as nat, e.path.len())]
        } else {
            seq![]
        })) by {
            if !is_seg_prefix(e.path, segs) {
                assert(before + seq![] =~= before);
            }
        }
        let ghost after_path = seen;
        let mut a: usize = 0;
        while a < spec.aliases.len()
            invariant
                segs == strs_view(segments@),
                spec@ == e,
                a <= spec.aliases@.len(),
                seen == after_path + alias_candidates(segs, e.aliases, i as nat, a as nat),
                opt_pair_view(best) == best_of(seen),
                forall|k: int| 0 <= k < seen.len() ==> #[trigger] seen[k].0 <= i,
            decreases spec.aliases@.len() - a,
        {
            let alias_words = split_words(spec.aliases[a]);
            assert(spec.aliases@[a as int]@ == e.aliases[a as int]);
            if words_prefix(&alias_words, segments) {
                update_best(&mut best, i, alias_words.len());
                proof {
                    let c = (i as nat, alias_words@.len());
                    assert((seen.push(c)).drop_last() =~= seen);
                    assert(after_path + alias_candidates(segs, e.aliases, i as nat, (a + 1) as nat)
                        =~= seen.push(c));
                    seen = seen.push(c);
                }
            } else {
                assert(alias_candidates(segs, e.aliases, i as nat, (a + 1) as nat)
                    == alias_candidates(segs, e.aliases, i as nat, a as nat));
            }
            a = a + 1;
        }
        proof {
            assert(seen =~= candidates_upto(segs, (i + 1) as nat));
        }
        i = i + 1;
    }
    proof {
        lemma_best_of_member(seen);
    }
    match best {
        Some((index, consumed)) => {
            proof {
                let k = choose|k: int| 0 <= k < seen.len() && seen[k] == (index as nat, consumed as nat);
                assert(seen[k].0 < i);
                assert(table@[index as int]@ == builtin_table()[index as int]);
            }
            Some(BuiltinMatch { spec: table[index], consumed })
        },
        None => None,
    }
}

/// The chosen candidate uses the most words of all candidates, and every
/// earlier candidate uses strictly fewer; there is a choice exactly when
/// there is a candidate.
pub proof fn lemma_best_of_longest(cs: Seq<(nat, nat)>)
    ensures
        best_of(cs) is None <==> cs.len() == 0,
        best_of(cs) matches Some(b) ==> exists|k: int|
            0 <= k < cs.len() && cs[k] == b && (forall|j: int| 0 <= j < k ==> (#[trigger] cs[j]).1
                < b.1),
        best_of(cs) matches Some(b) ==> forall|j: int| 0 <= j < cs.len() ==> (#[trigger] cs[j]).1
            <= b.1,
    decreases cs.len(),
{
    if cs.len() > 0 {
        let init = cs.drop_last();
        lemma_best_of_longest(init);
        let b = best_of(cs).unwrap();
        assert forall|j: int| 0 <= j < init.len() implies init[j] == cs[j] by {}
        match best_of(init) {
            Some(p) => {
                if p.1 >= cs.last().1 {
                    let k = choose|k: int|
                        0 <= k < init.len() && init[k] == p && (forall|j: int|
                            0 <= j < k ==> (#[trigger] init[j]).1 < p.1);
                    assert(cs[k] == b);
                    assert forall|j: int| 0 <= j < k implies (#[trigger] cs[j]).1 < b.1 by {
                        assert(init[j] == cs[j]);
                    }
                    assert forall|j: int| 0 <= j < cs.len() implies (#[trigger] cs[j]).1 <= b.1 by {
                        if j < init.len() {
                            assert(init[j] == cs[j]);
                        }
                    }
                } else {
                    let k = cs.len() - 1;
                    assert(cs[k] == b);
                    assert forall|j: int| 0 <= j < k implies (#[trigger] cs[j]).1 < b.1 by {
                        assert(init[j] == cs[j]);
                        assert(init[j].1 <= p.1);
                    }
                    assert forall|j: int| 0 <= j < cs.len() implies (#[trigger] cs[j]).1 <= b.1 by {
                        if j < init.len() {
                            assert(init[j] == cs[j]);
                            assert(init[j].1 <= p.1);
                        }
                    }
                }
            },
            None => {
                let k = cs.len() - 1;
                assert(cs[k] == b);
            },
        }
    }
}

/// Resolution picks the longest path or alias that prefixes the command
/// words, and among equally long ones the first in registry order (path
/// before aliases); it fails exactly when no path or alias prefixes them.
pub proof fn lemma_resolve_longest(segs: Seq<Seq<char>>)
    ensures
        spec_resolve(segs) is None <==> candidates(segs).len() == 0,
        spec_resolve(segs) matches Some((e, n)) ==> exists|k: int|
            0 <= k < candidates(segs).len() && candidates(segs)[k].1 == n
                && builtin_table()[candidates(segs)[k].0 as int] == e && (forall|j: int|
                0 <= j < k ==> (#[trigger] candidates(segs)[j]).1 < n),
        spec_resolve(segs) matches Some((e, n)) ==> forall|j: int|
            0 <= j < candidates(segs).len() ==> (#[trigger] candidates(segs)[j]).1 <= n,
{
    lemma_best_of_longest(candidates(segs));
}

/// The command words that name a builtin: its path, then the words of each
/// of its aliases.
pub open spec fn entry_keys(e: BuiltinSpecView) -> Seq<Seq<Seq<char>>> {
    seq![e.path] + e.aliases.map_values(|a: Seq<char>| words(a))
}

/// Whether builtin `i` of the registry has a path or alias of `n` words that
/// prefixes the command words `segs`.
pub open spec fn names_prefix(segs: Seq<Seq<char>>, i: int, n: nat) -> bool {
    &&& 0 <= i < builtin_table().len()
    &&& exists|j: int|
        0 <= j < entry_keys(builtin_table()[i]).len() && is_seg_prefix(
            #[trigger] entry_keys(builtin_table()[i])[j],
            segs,
        ) && entry_keys(builtin_table()[i])[j].len() == n
}

proof fn lemma_alias_candidates(segs: Seq<Seq<char>>, al: Seq<Seq<char>>, i: nat, n: nat)
    requires
        n <= al.len(),
    ensures
        forall|k: int|
            0 <= k < alias_candidates(segs, al, i, n).len() ==> (#[trigger] alias_candidates(
                segs,
                al,
                i,
                n,
            )[k]).0 == i && exists|j: int|
                0 <= j < n && is_seg_prefix(#[trigger] words(al[j]), segs) && words(al[j]).len()
                    == alias_candidates(segs, al, i, n)[k].1,
        forall|j: int|
            0 <= j < n && is_seg_prefix(#[trigger] words(al[j]), segs) ==> alias_candidates(
                segs,
                al,
                i,
                n,
            ).contains((i, words(al[j]).len())),
    decreases n,
{
    if n > 0 {
        let m = (n - 1) as nat;
        lemma_alias_candidates(segs, al, i, m);
        let rest = alias_candidates(segs, al, i, m);
        let ac = alias_candidates(segs, al, i, n);
        let w = words(al[m as int]);
        assert forall|k: int| 0 <= k < ac.len() implies (#[trigger] ac[k]).0 == i && exists|j: int|
            0 <= j < n && is_seg_prefix(#[trigger] words(al[j]), segs) && words(al[j]).len()
                == ac[k].1 by {
            if k < rest.len() {
                assert(ac[k] == rest[k]);
                let j = choose|j: int|
                    0 <= j < m && is_seg_prefix(#[trigger] words(al[j]), segs) && words(al[j]).len()
                        == rest[k].1;
                assert(is_seg_prefix(words(al[j]), segs));
            } else {
                assert(is_seg_prefix(words(al[m as int]), segs));
            }
        }
        assert forall|j: int| 0 <= j < n && is_seg_prefix(#[trigger] words(al[j]), segs) implies ac.contains(
            (i, words(al[j]).len()),
        ) by {
            if j < m {
                let k = choose|k: int| 0 <= k < rest.len() && rest[k] == (i, words(al[j]).len());
                assert(ac[k] == rest[k]);
            } else {
                assert(ac.last() == (i, w.len()));
            }
        }
    }
}

proof fn lemma_entry_candidates(segs: Seq<Seq<char>>, e: BuiltinSpecView, i: nat)
    ensures
        forall|k: int|
            0 <= k < entry_candidates(segs, e, i).len() ==> (#[trigger] entry_candidates(segs, e, i)[k]).0
                == i && exists|j: int|
                0 <= j < entry_keys(e).len() && is_seg_prefix(#[trigger] entry_keys(e)[j], segs)
                    && entry_keys(e)[j].len() == entry_candidates(segs, e, i)[k].1,
        forall|j: int|
            0 <= j < entry_keys(e).len() && is_seg_prefix(#[trigger] entry_keys(e)[j], segs)
                ==> entry_candidates(segs, e, i).contains((i, entry_keys(e)[j].len())),
{
    let head: Seq<(nat, nat)> = if is_seg_prefix(e.path, segs) {
        seq![(i, e.path.len())]
    } else {
        seq![]
    };
    let ac = alias_candidates(segs, e.aliases, i, e.aliases.len());
    let ec = entry_candidates(segs, e, i);
    let keys = entry_keys(e);
    lemma_alias_candidates(segs, e.aliases, i, e.aliases.len());
    assert(ec == head + ac);
    assert(keys[0] == e.path);
    assert forall|j: int| 0 <= j < e.aliases.len() implies #[trigger] keys[j + 1] == words(e.aliases[j]) by {}
    assert forall|k: int| 0 <= k < ec.len() implies (#[trigger] ec[k]).0 == i && exists|j: int|
        0 <= j < keys.len() && is_seg_prefix(#[trigger] keys[j], segs) && keys[j].len() == ec[k].1 by {
        if k < head.len() {
            assert(is_seg_prefix(keys[0], segs));
        } else {
            assert(ec[k] == ac[k - head.len()]);
            let j = choose|j: int|
                0 <= j < e.aliases.len() && is_seg_prefix(#[trigger] words(e.aliases[j]), segs)
                    && words(e.aliases[j]).len() == ac[k - head.len()].1;
            assert(keys[j + 1] == words(e.aliases[j]));
            assert(is_seg_prefix(keys[j + 1], segs));
        }
    }
    assert forall|j: int| 0 <= j < keys.len() && is_seg_prefix(#[trigger] keys[j], segs) implies ec.contains(
        (i, keys[j].len()),
    ) by {
        if j == 0 {
            assert(ec[0] == (i, e.path.len()));
        } else {
            assert(keys[j] == words(e.aliases[j - 1]));
            assert(is_seg_prefix(words(e.aliases[j - 1]), segs));
            let k = choose|k: int| 0 <= k < ac.len() && ac[k] == (i, words(e.aliases[j - 1]).len());
            assert(ec[k + head.len()] == ac[k]);
        }
    }
}

/// The candidates of the first `n` builtins come in registry order, and they
/// are exactly the paths and aliases of those builtins that prefix `segs`.
proof fn lemma_candidates_upto(segs: Seq<Seq<char>>, n: nat)
    requires
        n <= builtin_table().len(),
    ensures
        forall|k: int|
            0 <= k < candidates_upto(segs, n).len() ==> (#[trigger] candidates_upto(segs, n)[k]).0 < n
                && names_prefix(segs, candidates_upto(segs, n)[k].0 as int, candidates_upto(segs, n)[k].1),
        forall|k: int, k2: int|
            0 <= k < k2 < candidates_upto(segs, n).len() ==> (#[trigger] candidates_upto(segs, n)[k]).0
                <= (#[trigger] candidates_upto(segs, n)[k2]).0,
        forall|i: int, m: nat|
            0 <= i < n && #[trigger] names_prefix(segs, i, m) ==> candidates_upto(segs, n).contains(
                (i as nat, m),
            ),
    decreases n,
{
    if n > 0 {
        let p = (n - 1) as nat;
        lemma_candidates_upto(segs, p);
        let e = builtin_table()[p as int];
        lemma_entry_candidates(segs, e, p);
        let rest = candidates_upto(segs, p);
        let ec = entry_candidates(segs, e, p);
        let cu = candidates_upto(segs, n);
        assert(cu == rest + ec);
        assert forall|k: int| 0 <= k < cu.len() implies (#[trigger] cu[k]).0 < n && names_prefix(
            segs,
            cu[k].0 as int,
            cu[k].1,
        ) by {
            if k < rest.len() {
                assert(cu[k] == rest[k]);
            } else {
                assert(cu[k] == ec[k - rest.len()]);
                let j = choose|j: int|
                    0 <= j < entry_keys(e).len() && is_seg_prefix(#[trigger] entry_keys(e)[j], segs)
                        && entry_keys(e)[j].len() == ec[k - rest.len()].1;
                assert(is_seg_prefix(entry_keys(builtin_table()[p as int])[j], segs));
            }
        }
        assert forall|k: int, k2: int| 0 <= k < k2 < cu.len() implies (#[trigger] cu[k]).0 <= (
        #[trigger] cu[k2]).0 by {
            if k2 < rest.len() {
                assert(cu[k] == rest[k]);
                assert(cu[k2] == rest[k2]);
            } else if k < rest.len() {
                assert(cu[k] == rest[k]);
                assert(cu[k2] == ec[k2 - rest.len()]);
            } else {
                assert(cu[k] == ec[k - rest.len()]);
                assert(cu[k2] == ec[k2 - rest.len()]);
            }
        }
        assert forall|i: int, m: nat| 0 <= i < n && #[trigger] names_prefix(segs, i, m) implies cu.contains(
            (i as nat, m),
        ) by {
            if i < p {
                let k = choose|k: int| 0 <= k < rest.len() && rest[k] == (i as nat, m);
                assert(cu[k] == rest[k]);
            } else {
                let j = choose|j: int|
                    0 <= j < entry_keys(builtin_table()[i]).len() && is_seg_prefix(
                        #[trigger] entry_keys(builtin_table()[i])[j],
                        segs,
                    ) && entry_keys(builtin_table()[i])[j].len() == m;
                assert(is_seg_prefix(entry_keys(e)[j], segs));
                let k = choose|k: int| 0 <= k < ec.len() && ec[k] == (p, entry_keys(e)[j].len());
                assert(cu[k + rest.len()] == ec[k]);
            }
        }
    }
}

/// Resolution over the paths and aliases themselves: it fails exactly when
/// no builtin has a path or alias prefixing the command words; otherwise the
/// words it consumes are the most that any path or alias prefixes, and the
/// builtin it picks is the first in the registry with a path or alias of
/// that many words prefixing them.  Over the candidates: the chosen one has
/// the greatest length and the least registry index among those of that
/// length.
pub proof fn lemma_resolve_prefix_set(segs: Seq<Seq<char>>)
    ensures
        spec_resolve(segs) is None <==> !exists|i: int, n: nat| #[trigger] names_prefix(segs, i, n),
        spec_resolve(segs) matches Some((e, n)) ==> forall|i: int, m: nat|
            #[trigger] names_prefix(segs, i, m) ==> m <= n,
        spec_resolve(segs) matches Some((e, n)) ==> exists|i0: int|
            #[trigger] names_prefix(segs, i0, n) && builtin_table()[i0] == e && forall|i: int|
                0 <= i < i0 ==> !#[trigger] names_prefix(segs, i, n),
        spec_resolve(segs) matches Some((e, n)) ==> exists|k: int|
            0 <= k < candidates(segs).len() && #[trigger] candidates(segs)[k].1 == n
                && builtin_table()[candidates(segs)[k].0 as int] == e && forall|j: int|
                0 <= j < candidates(segs).len() && (#[trigger] candidates(segs)[j]).1 == n
                    ==> candidates(segs)[k].0 <= candidates(segs)[j].0,
{
    let cs = candidates(segs);
    lemma_resolve_longest(segs);
    lemma_candidates_upto(segs, builtin_table().len());
    if exists|i: int, n: nat| #[trigger] names_prefix(segs, i, n) {
        let (i, n) = choose|i: int, n: nat| #[trigger] names_prefix(segs, i, n);
        let k = choose|k: int| 0 <= k < cs.len() && cs[k] == (i as nat, n);
        assert(cs.len() > 0);
    }
    if cs.len() > 0 {
        assert(names_prefix(segs, cs[0].0 as int, cs[0].1));
    }
    if let Some((e, n)) = spec_resolve(segs) {
        assert forall|i: int, m: nat| #[trigger] names_prefix(segs, i, m) implies m <= n by {
            let k = choose|k: int| 0 <= k < cs.len() && cs[k] == (i as nat, m);
            assert(cs[k].1 <= n);
        }
        let k = choose|k: int|
            0 <= k < cs.len() && cs[k].1 == n && builtin_table()[cs[k].0 as int] == e && (forall|j: int|
                0 <= j < k ==> (#[trigger] cs[j]).1 < n);
        let i0 = cs[k].0 as int;
        assert(names_prefix(segs, i0, n));
        assert forall|j: int| 0 <= j < cs.len() && (#[trigger] cs[j]).1 == n implies cs[k].0
            <= cs[j].0 by {
            if j < k {
                assert(cs[j].1 < n);
            } else if j > k {
                assert(cs[k].0 <= cs[j].0);
            }
        }
        assert forall|i: int| 0 <= i < i0 implies !#[trigger] names_prefix(segs, i, n) by {
            if names_prefix(segs, i, n) {
                let k2 = choose|k2: int| 0 <= k2 < cs.len() && cs[k2] == (i as nat, n);
                if k2 > k {
                    assert(cs[k].0 <= cs[k2].0);
                }
                assert(cs[k2].1 < n);
            }
        }
    }
}

// ---------------------------------------------------------------------------
// Help texts
// ---------------------------------------------------------------------------

pub open spec fn kind_name(k: ValueKind) -> Seq<char> {
    match k {
        ValueKind::NoValue => "none"@,
        ValueKind::Any => "any"@,
        ValueKind::String => "string"@,
        ValueKind::List => "list"@,
        ValueKind::Function => "function"@,
        ValueKind::Object => "object"@,
        ValueKind::Path => "path"@,
        ValueKind::EnvName => "env-name"@,
    }
}

pub open spec fn style_name(s: BuiltinStyle) -> Seq<char> {
    match s {
        BuiltinStyle::CommandOnly => "command"@,
        BuiltinStyle::FunctionOnly => "function"@,
        BuiltinStyle::Both => "command/function"@,
    }
}

impl ValueKind {
    /// The name shown in usage lines and help texts.
    pub fn name(self) -> (r: &'static str)
        ensures
            r@ == kind_name(self),
    {
        match self {
            ValueKind::NoValue => "none",
            ValueKind::Any => "any",
            ValueKind::String => "string",
            ValueKind::List => "list",
            ValueKind::Function => "function",
            ValueKind::Object => "object",
            ValueKind::Path => "path",
            ValueKind::EnvName => "env-name",
        }
    }
}

impl BuiltinStyle {
    /// The name shown in help texts.
    pub fn name(self) -> (r: &'static str)
        ensures
            r@ == style_name(self),
    {
        match self {
            BuiltinStyle::CommandOnly => "command",
            BuiltinStyle::FunctionOnly => "function",
            BuiltinStyle::Both => "command/function",
        }
    }
}

/// How one argument appears in a usage line: `<name:kind>` when required,
/// `[name:kind]` when optional, with `...` before the bracket when variadic.
pub open spec fn arg_usage(a: ArgView) -> Seq<char> {
    let body = a.name + ":"@ + kind_name(a.kind) + if a.variadic {
        "..."@
    } else {
        seq![]
    };
    if a.optional {
        "["@ + body + "]"@
    } else {
        "<"@ + body + ">"@
    }
}

/// The usage line of a builtin.
pub open spec fn usage_text(e: BuiltinSpecView) -> Seq<char> {
    "usage: "@ + join(seq![join(e.path, " "@)] + e.args.map_values(|a: ArgView| arg_usage(a)), " "@)
}

/// The alias line of a builtin's help.
pub open spec fn aliases_line(e: BuiltinSpecView) -> Seq<char> {
    if e.aliases.len() == 0 {
        "aliases: none"@
    } else {
        "aliases: "@ + join(e.aliases, ", "@)
    }
}

/// The help text of one builtin.
pub open spec fn help_for(e: BuiltinSpecView) -> Seq<char> {
    usage_text(e) + "\n"@ + e.description + "\nstyle: "@ + style_name(e.style) + "\ninput: "@
        + kind_name(e.input) + "\noutput: "@ + kind_name(e.output) + "\n"@ + aliases_line(e)
        + "\nmutates shell: "@ + if e.mutates_shell {
        "yes"@
    } else {
        "no"@
    }
}

/// The overview line of one builtin: its path padded to sixteen characters,
/// then its description.
pub open spec fn overview_line(e: BuiltinSpecView) -> Seq<char> {
    "  "@ + pad_right(join(e.path, " "@), 16) + " "@ + e.description
}

/// The list of all builtins.
pub open spec fn help_overview() -> Seq<char> {
    join(
        seq!["available builtins:"@] + builtin_table().map_values(|e: BuiltinSpecView| overview_line(e)),
        "\n"@,
    )
}

/// Appends `parts` joined with `sep`.
fn push_joined(out: &mut String, parts: &[&str], sep: &str)
    ensures
        final(out)@ == old(out)@ + join(strs_view(parts@), sep@),
{
    let ghost v = strs_view(parts@);
    let mut i: usize = 0;
    while i < parts.len()
        invariant
            v == strs_view(parts@),
            i <= parts@.len(),
            out@ == old(out)@ + join(v.take(i as int), sep@),
        decreases parts@.len() - i,
    {
        let ghost before = out@;
        if i > 0 {
            push_str(out, sep);
        }
        push_str(out, parts[i]);
        proof {
            if i == 0 {
                assert(v.take(1) =~= seq![v[0]]);
                assert(v.take(0) =~= Seq::<Seq<char>>::empty());
            } else {
                assert(v.take(i + 1) =~= v.take(i as int).push(v[i as int]));
                lemma_join_push(v.take(i as int), v[i as int], sep@);
            }
            assert(out@ =~= old(out)@ + join(v.take(i + 1), sep@));
        }
        i = i + 1;
    }
    assert(v.take(i as int) =~= v);
}

fn push_arg_usage(out: &mut String, a: BuiltinArgSpec)
    ensures
        final(out)@ == old(out)@ + arg_usage(a@),
{
    if a.optional {
        push_str(out, "[");
    } else {
        push_str(out, "<");
    }
    push_str(out, a.name);
    push_str(out, ":");
    push_str(out, a.kind.name());
    if a.variadic {
        push_str(out, "...");
    }
    if a.optional {
        push_str(out, "]");
    } else {
        push_str(out, ">");
    }
    assert(final(out)@ =~= old(out)@ + arg_usage(a@));
}

/// The usage line of a builtin, e.g. `usage: fs read <path:path>`.
pub fn format_usage(spec: &BuiltinSpec) -> (r: String)
    ensures
        r@ == usage_text(spec@),
{
    let ghost e = spec@;
    let ghost us = e.args.map_values(|a: ArgView| arg_usage(a));
    let mut out = String::new();
    push_str(&mut out, "usage: ");
    let ghost start = out@;
    push_joined(&mut out, spec.path, " ");
    let ghost pj = join(e.path, " "@);
    assert(join(seq![pj], " "@) == pj);
    let mut k: usize = 0;
    while k < spec.args.len()
        invariant
            e == spec@,
            us == e.args.map_values(|a: ArgView| arg_usage(a)),
            k <= spec.args@.len(),
            out@ == "usage: "@ + join(seq![pj] + us.take(k as int), " "@),
        decreases spec.args@.len() - k,
    {
        push_str(&mut out, " ");
        push_arg_usage(&mut out, spec.args[k]);
        proof {
            assert(spec.args@[k as int]@ == e.args[k as int]);
            assert(seq![pj] + us.take(k + 1) =~= (seq![pj] + us.take(k as int)).push(us[k as int]));
            lemma_join_push(seq![pj] + us.take(k as int), us[k as int], " "@);
            assert(out@ =~= "usage: "@ + join(seq![pj] + us.take(k + 1), " "@));
        }
        k = k + 1;
    }
    assert(us.take(k as int) =~= us);
    out
}

/// The help text of `target`, or the list of all builtins.
pub fn render_help(target: Option<&BuiltinSpec>) -> (r: String)
    ensures
        r@ == match target {
            Some(spec) => help_for(spec@),
            None => help_overview(),
        },
{
    match target {
        Some(spec) => {
            let mut out = format_usage(spec);
            push_str(&mut out, "\n");
            push_str(&mut out, spec.description);
            push_str(&mut out, "\nstyle: ");
            push_str(&mut out, spec.style.name());
            push_str(&mut out, "\ninput: ");
            push_str(&mut out, spec.input.name());
            push_str(&mut out, "\noutput: ");
            push_str(&mut out, spec.output.name());
            push_str(&mut out, "\n");
            if spec.aliases.len() == 0 {
                push_str(&mut out, "aliases: none");
            } else {
                push_str(&mut out, "aliases: ");
                push_joined(&mut out, spec.aliases, ", ");
            }
            push_str(&mut out, "\nmutates shell: ");
            if spec.mutates_shell {
                push_str(&mut out, "yes");
            } else {
                push_str(&mut out, "no");
            }
            assert(out@ =~= help_for(spec@));
            out
        },
        None => {
            let ghost lines = builtin_table().map_values(|e: BuiltinSpecView| overview_line(e));
            let mut out = String::new();
            push_str(&mut out, "available builtins:");
            let ghost head = "available builtins:"@;
            assert(join(seq![head], "\n"@) == head);
            let table = specs();
            let mut i: usize = 0;
            while i < table.len()
                invariant
                    table@.len() == builtin_table().len(),
                    forall|k: int|
                        0 <= k < table@.len() ==> #[trigger] table@[k]@ == builtin_table()[k],
                    lines == builtin_table().map_values(|e: BuiltinSpecView| overview_line(e)),
                    i <= table@.len(),
                    out@ == join(seq![head] + lines.take(i as int), "\n"@),
                decreases table@.len() - i,
            {
                let spec = table[i];
                push_str(&mut out, "\n");
                push_str(&mut out, "  ");
                let mut path = String::new();
                push_joined(&mut path, spec.path, " ");
                let path_chars = to_chars(path.as_str());
                push_padded(&mut out, path_chars.as_slice(), 16);
                push_str(&mut out, " ");
                push_str(&mut out, spec.description);
                proof {
                    assert(table@[i as int]@ == builtin_table()[i as int]);
                    assert(path@ =~= join(spec@.path, " "@));
                    assert(seq![head] + lines.take(i + 1) =~= (seq![head] + lines.take(
                        i as int,
                    )).push(lines[i as int]));
                    lemma_join_push(seq![head] + lines.take(i as int), lines[i as int], "\n"@);
                    assert(out@ =~= join(seq![head] + lines.take(i + 1), "\n"@));
                }
                i = i + 1;
            }
            assert(lines.take(i as int) =~= lines);
            out
        },
    }
}

} // verus!
