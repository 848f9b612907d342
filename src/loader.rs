//! Materialization of the command tree from declarations spread over files
//! that import one another.
//!
//! Reading and parsing files is left to the caller. The loader works on the
//! files read so far: it either finishes, or names the next import that it
//! needs, which the caller reads and hands back before asking again.
use vstd::prelude::*;

use crate::config::{
    command_rejection, copy_strings, lemma_accepted_from_children, node_rejection, reports,
    validate_node, Arg, Command, Config, ConfigError, ErrorModel, Flag, Rejection, Validate,
};
use crate::text::{same_text, views};

verus! {

/// One entry of a `commands` list: an import of another file, or a command
/// declared in place.
#[derive(Debug)]
pub enum CommandEntry {
    Import { import: String },
    Command(RawCommand),
}

/// A command as declared, with its children not yet materialized.
#[derive(Debug)]
pub struct RawCommand {
    pub name: String,
    pub help: String,
    pub args: Vec<Arg>,
    pub flags: Vec<Flag>,
    pub command: String,
    pub commands: Vec<CommandEntry>,
}

/// A top-level configuration document as declared.
#[derive(Debug)]
pub struct RawConfig {
    pub device: String,
    pub channel: u32,
    pub baud: Option<u32>,
    pub shell: String,
    pub shell_args: Vec<String>,
    pub max_text_bytes: usize,
    pub chunk_delay: u64,
    pub max_content_bytes: usize,
    pub commands: Vec<CommandEntry>,
}

/// What an imported file declares: one command, or a list of entries.
#[derive(Debug)]
pub enum Document {
    Command(RawCommand),
    Entries(Vec<CommandEntry>),
}

/// The file that the entry `import` of the file `from` names, as the caller
/// found it.
#[derive(Debug)]
pub struct Source {
    pub from: String,
    pub import: String,
    /// Where the imported file is; its own imports are relative to it.
    pub path: String,
    /// Its canonical path, or why there is none.
    pub canonical: Result<String, ConfigError>,
    /// What it declares, or why it could not be read or parsed.
    pub document: Result<Document, ConfigError>,
}

/// Why a pass of the loader stopped short of a result.
#[derive(Debug)]
pub enum Halt {
    /// The entry `import` of the file `from` has not been read yet.
    Read { from: String, import: String },
    Fail(ConfigError),
}

/// The meaning of a [`Halt`].
pub enum Stop {
    Read(Seq<char>, Seq<char>),
    Fail(ErrorModel),
    /// A materialized command, or the whole configuration, breaks a rule.
    Invalid(Rejection),
}

impl View for Halt {
    type V = Stop;

    open spec fn view(&self) -> Stop {
        match self {
            Halt::Read { from, import } => Stop::Read(from@, import@),
            Halt::Fail(e) => Stop::Fail(e@),
        }
    }
}

/// What a pass of the loader gives.
#[derive(Debug)]
pub enum LoadStep {
    Done(Result<Config, ConfigError>),
    Read { from: String, import: String },
}

/// A materialized command.
pub struct Tree {
    pub name: Seq<char>,
    pub help: Seq<char>,
    pub args: Seq<Arg>,
    pub flags: Seq<Flag>,
    pub command: Seq<char>,
    pub children: Seq<Tree>,
}

/// The command `c` is the tree `t`.
pub open spec fn models(c: Command, t: Tree) -> bool
    decreases c,
{
    &&& c.name@ == t.name
    &&& c.help@ == t.help
    &&& c.args@ == t.args
    &&& c.flags@ == t.flags
    &&& c.command@ == t.command
    &&& c.commands@.len() == t.children.len()
    &&& forall|i: int| 0 <= i < t.children.len() ==> models(#[trigger] c.commands@[i], t.children[i])
}

pub open spec fn models_all(cs: Seq<Command>, ts: Seq<Tree>) -> bool {
    cs.len() == ts.len() && forall|i: int| 0 <= i < ts.len() ==> models(#[trigger] cs[i], ts[i])
}

/// The paths of `v`.
pub open spec fn path_set(v: Seq<String>) -> Set<Seq<char>> {
    Set::new(|p: Seq<char>| exists|i: int| 0 <= i < v.len() && (#[trigger] v[i])@ == p)
}

/// The sizes of declarations, which materialization takes apart.
pub open spec fn entry_size(e: CommandEntry) -> nat
    decreases e,
{
    match e {
        CommandEntry::Import { .. } => 1,
        CommandEntry::Command(raw) => 1 + raw_size(raw),
    }
}

pub open spec fn raw_size(raw: RawCommand) -> nat
    decreases raw,
{
    1 + entries_size(raw.commands@)
}

pub open spec fn entries_size(es: Seq<CommandEntry>) -> nat
    decreases es,
{
    if es.len() == 0 {
        0
    } else {
        1 + entry_size(es[0]) + entries_size(es.drop_first())
    }
}

/// How many of the files read have a canonical path outside `visited`: each
/// import opens one of them, which bounds how deep imports go.
pub open spec fn unopened(table: Seq<Source>, visited: Set<Seq<char>>) -> nat
    decreases table.len(),
{
    if table.len() == 0 {
        0
    } else {
        let s = table.last();
        unopened(table.drop_last(), visited) + if s.canonical is Ok && !visited.contains(
            s.canonical->Ok_0@,
        ) {
            1nat
        } else {
            0nat
        }
    }
}

pub proof fn lemma_unopened_grows_less(table: Seq<Source>, a: Set<Seq<char>>, b: Set<Seq<char>>)
    requires
        a.subset_of(b),
    ensures
        unopened(table, b) <= unopened(table, a),
    decreases table.len(),
{
    if table.len() > 0 {
        lemma_unopened_grows_less(table.drop_last(), a, b);
    }
}

pub proof fn lemma_unopened_open(table: Seq<Source>, visited: Set<Seq<char>>, k: int)
    requires
        0 <= k < table.len(),
        table[k].canonical is Ok,
        !visited.contains(table[k].canonical->Ok_0@),
    ensures
        unopened(table, visited.insert(table[k].canonical->Ok_0@)) < unopened(table, visited),
    decreases table.len(),
{
    let c = table[k].canonical->Ok_0@;
    if k == table.len() - 1 {
        lemma_unopened_grows_less(table.drop_last(), visited, visited.insert(c));
    } else {
        lemma_unopened_open(table.drop_last(), visited, k);
    }
}

/// The first of `table[k..]` read for the entry `import` of the file `from`.
pub open spec fn find_source(table: Seq<Source>, from: Seq<char>, import: Seq<char>, k: int) -> Option<
    int,
>
    decreases table.len() - k,
{
    if k < 0 || k >= table.len() {
        None
    } else if table[k].from@ == from && table[k].import@ == import {
        Some(k)
    } else {
        find_source(table, from, import, k + 1)
    }
}

pub open spec fn find_source_bounds(table: Seq<Source>, from: Seq<char>, import: Seq<char>, k: int) -> bool {
    find_source(table, from, import, k) matches Some(j) ==> k <= j < table.len()
}

pub proof fn lemma_find_source_bounds(table: Seq<Source>, from: Seq<char>, import: Seq<char>, k: int)
    ensures
        find_source_bounds(table, from, import, k),
    decreases table.len() - k,
{
    if 0 <= k < table.len() {
        lemma_find_source_bounds(table, from, import, k + 1);
    }
}

/// The commands that one entry of the file `current` materializes to.
pub open spec fn load_entry(
    table: Seq<Source>,
    e: CommandEntry,
    current: String,
    visited: Set<Seq<char>>,
) -> Result<(Seq<Tree>, Set<Seq<char>>), Stop>
    decreases unopened(table, visited), entry_size(e),
{
    match e {
        CommandEntry::Import { import } => load_import(table, current, import, visited),
        CommandEntry::Command(raw) => match load_raw(table, raw, current, visited) {
            Ok((t, v)) => Ok((seq![t], v)),
            Err(h) => Err(h),
        },
    }
}

/// The commands that the entries `es` of the file `current` materialize to,
/// in order, with the canonical paths opened by then; files already opened
/// are in `visited`.
pub open spec fn load_entries(
    table: Seq<Source>,
    es: Seq<CommandEntry>,
    current: String,
    visited: Set<Seq<char>>,
) -> Result<(Seq<Tree>, Set<Seq<char>>), Stop>
    decreases unopened(table, visited), entries_size(es),
{
    if es.len() == 0 {
        Ok((Seq::empty(), visited))
    } else {
        proof {
            assert(entries_size(es) == 1 + entry_size(es[0]) + entries_size(es.drop_first()));
            assert(entry_size(es[0]) >= 1);
        }
        match load_entry(table, es[0], current, visited) {
            Err(h) => Err(h),
            Ok((ts, v)) => {
                proof {
                    lemma_unopened_grows_less(table, visited, visited.union(v));
                }
                match load_entries(table, es.drop_first(), current, visited.union(v)) {
                    Err(h) => Err(h),
                    Ok((ts2, v2)) => Ok((ts + ts2, v2)),
                }
            },
        }
    }
}

/// The command that `raw`, declared in the file `current`, materializes to,
/// once its children have and it passes its own rules.
pub open spec fn load_raw(
    table: Seq<Source>,
    raw: RawCommand,
    current: String,
    visited: Set<Seq<char>>,
) -> Result<(Tree, Set<Seq<char>>), Stop>
    decreases unopened(table, visited), raw_size(raw),
{
    match load_entries(table, raw.commands@, current, visited) {
        Err(h) => Err(h),
        Ok((children, v)) => match node_rejection(
            raw.name@,
            raw.args@,
            raw.flags@,
            raw.command@,
            children.len(),
        ) {
            Some(j) => Err(Stop::Invalid(j)),
            None => Ok(
                (
                    Tree {
                        name: raw.name@,
                        help: raw.help@,
                        args: raw.args@,
                        flags: raw.flags@,
                        command: raw.command@,
                        children,
                    },
                    v,
                ),
            ),
        },
    }
}

/// The commands of the file that the entry `import` of the file `current`
/// names: a circular import when that file was opened before.
pub open spec fn load_import(
    table: Seq<Source>,
    current: String,
    import: String,
    visited: Set<Seq<char>>,
) -> Result<(Seq<Tree>, Set<Seq<char>>), Stop>
    decreases unopened(table, visited), 0nat,
{
    proof {
        lemma_find_source_bounds(table, current@, import@, 0);
    }
    match find_source(table, current@, import@, 0) {
        None => Err(Stop::Read(current@, import@)),
        Some(k) => {
            let s = table[k];
            match s.canonical {
                Err(e) => Err(Stop::Fail(e@)),
                Ok(c) => if visited.contains(c@) {
                    Err(Stop::Fail(ErrorModel::CircularImport(c@)))
                } else {
                    proof {
                        lemma_unopened_open(table, visited, k);
                    }
                    let v = visited.insert(c@);
                    match s.document {
                        Err(e) => Err(Stop::Fail(e@)),
                        Ok(Document::Command(raw)) => match load_raw(table, raw, s.path, v) {
                            Ok((t, v2)) => Ok((seq![t], v2)),
                            Err(h) => Err(h),
                        },
                        Ok(Document::Entries(es)) => load_entries(table, es@, s.path, v),
                    }
                },
            }
        },
    }
}

/// Commands that each pass the command rules pass as a list.
pub proof fn lemma_list_accepted(cs: Seq<Command>, from: int)
    requires
        0 <= from,
        all_accepted(cs),
    ensures
        crate::config::list_rejection(cs, from) is None,
    decreases cs.len() - from,
{
    if from < cs.len() {
        lemma_list_accepted(cs, from + 1);
    }
}

/// The exec stop `h` is the spec stop `st`; a broken rule is reported as
/// `validate` reports it.
pub open spec fn halt_agrees(h: Halt, st: Stop) -> bool {
    match st {
        Stop::Invalid(j) => match h {
            Halt::Fail(e) => reports(Err(e), Some(j)),
            _ => false,
        },
        _ => h@ == st,
    }
}

/// Every command of `cs` passes the command rules.
pub open spec fn all_accepted(cs: Seq<Command>) -> bool {
    forall|i: int| 0 <= i < cs.len() ==> command_rejection(#[trigger] cs[i]) is None
}

/// The exec result `r` is what the spec gives.
pub open spec fn agrees_list(
    r: Result<(Vec<Command>, Vec<String>), Halt>,
    s: Result<(Seq<Tree>, Set<Seq<char>>), Stop>,
) -> bool {
    match (r, s) {
        (Ok((cs, v)), Ok((ts, vs))) => models_all(cs@, ts) && path_set(v@) == vs,
        (Err(h), Err(st)) => halt_agrees(h, st),
        _ => false,
    }
}

pub open spec fn agrees_one(
    r: Result<(Command, Vec<String>), Halt>,
    s: Result<(Tree, Set<Seq<char>>), Stop>,
) -> bool {
    match (r, s) {
        (Ok((c, v)), Ok((t, vs))) => models(c, t) && path_set(v@) == vs,
        (Err(h), Err(st)) => halt_agrees(h, st),
        _ => false,
    }
}

/// The paths opened after a step hold those opened before.
pub open spec fn grew(visited: Seq<String>, r: Result<(Vec<Command>, Vec<String>), Halt>) -> bool {
    r matches Ok((_, v)) ==> path_set(visited).subset_of(path_set(v@))
}

fn contains_path(v: &Vec<String>, p: &str) -> (r: bool)
    ensures
        r == path_set(v@).contains(p@),
{
    let mut i: usize = 0;
    while i < v.len()
        invariant
            i <= v@.len(),
            forall|j: int| 0 <= j < i ==> (#[trigger] v@[j])@ != p@,
        decreases v@.len() - i,
    {
        if same_text(v[i].as_str(), p) {
            assert(path_set(v@).contains(p@)) by {
                assert(0 <= i < v@.len() && v@[i as int]@ == p@);
            }
            return true;
        }
        i = i + 1;
    }
    false
}

fn find_source_index(table: &Vec<Source>, from: &str, import: &str) -> (r: Option<usize>)
    ensures
        r matches Some(k) ==> find_source(table@, from@, import@, 0) == Some(k as int),
        r is None ==> find_source(table@, from@, import@, 0) is None,
{
    let mut k: usize = 0;
    while k < table.len()
        invariant
            k <= table@.len(),
            find_source(table@, from@, import@, 0) == find_source(table@, from@, import@, k as int),
        decreases table@.len() - k,
    {
        if same_text(table[k].from.as_str(), from) && same_text(table[k].import.as_str(), import) {
            return Some(k);
        }
        k = k + 1;
    }
    None
}

fn copy_args(v: &Vec<Arg>) -> (r: Vec<Arg>)
    ensures
        r@ == v@,
{
    let mut r: Vec<Arg> = Vec::new();
    let mut i: usize = 0;
    while i < v.len()
        invariant
            i <= v@.len(),
            r@ == v@.take(i as int),
        decreases v@.len() - i,
    {
        r.push(v[i].duplicate());
        i = i + 1;
        assert(r@ =~= v@.take(i as int));
    }
    assert(v@.take(i as int) =~= v@);
    r
}

fn copy_flags(v: &Vec<Flag>) -> (r: Vec<Flag>)
    ensures
        r@ == v@,
{
    let mut r: Vec<Flag> = Vec::new();
    let mut i: usize = 0;
    while i < v.len()
        invariant
            i <= v@.len(),
            r@ == v@.take(i as int),
        decreases v@.len() - i,
    {
        r.push(v[i].duplicate());
        i = i + 1;
        assert(r@ =~= v@.take(i as int));
    }
    assert(v@.take(i as int) =~= v@);
    r
}

proof fn lemma_entry_within(es: Seq<CommandEntry>, i: int)
    requires
        0 <= i < es.len(),
    ensures
        entry_size(es[i]) < entries_size(es),
        entries_size(es.skip(i)) <= entries_size(es),
    decreases i,
{
    if i > 0 {
        lemma_entry_within(es.drop_first(), i - 1);
        assert(es.drop_first()[i - 1] == es[i]);
        assert(es.drop_first().skip(i - 1) =~= es.skip(i));
    } else {
        assert(es.skip(0) =~= es);
    }
}

proof fn lemma_models_concat(a: Seq<Command>, ta: Seq<Tree>, b: Seq<Command>, tb: Seq<Tree>)
    requires
        models_all(a, ta),
        models_all(b, tb),
    ensures
        models_all(a + b, ta + tb),
{
    assert forall|i: int| 0 <= i < (ta + tb).len() implies models(#[trigger] (a + b)[i], (ta + tb)[i]) by {
        if i < a.len() {
            assert((a + b)[i] == a[i]);
            assert((ta + tb)[i] == ta[i]);
        } else {
            assert((a + b)[i] == b[i - a.len()]);
            assert((ta + tb)[i] == tb[i - ta.len()]);
        }
    }
}

fn load_entry_of(table: &Vec<Source>, e: &CommandEntry, current: &String, visited: Vec<String>) -> (r:
    Result<(Vec<Command>, Vec<String>), Halt>)
    ensures
        agrees_list(r, load_entry(table@, *e, *current, path_set(visited@))),
        grew(visited@, r),
        r matches Ok((cs, _)) ==> all_accepted(cs@),
    decreases unopened(table@, path_set(visited@)), entry_size(*e), 1nat,
{
    match e {
        CommandEntry::Import { import } => load_import_of(table, current, import, visited),
        CommandEntry::Command(raw) => {
            let ghost start = visited@;
            match load_raw_of(table, raw, current, visited) {
                Ok((c, v)) => {
                    let mut cs: Vec<Command> = Vec::new();
                    cs.push(c);
                    proof {
                        let t = load_raw(table@, *raw, *current, path_set(start))->Ok_0.0;
                        assert(cs@ =~= seq![c]);
                        assert(models_all(cs@, seq![t]));
                        assert(all_accepted(cs@));
                    }
                    Ok((cs, v))
                },
                Err(h) => Err(h),
            }
        },
    }
}

fn load_entries_from(
    table: &Vec<Source>,
    es: &Vec<CommandEntry>,
    current: &String,
    visited: Vec<String>,
) -> (r: Result<(Vec<Command>, Vec<String>), Halt>)
    ensures
        agrees_list(r, load_entries(table@, es@, *current, path_set(visited@))),
        grew(visited@, r),
        r matches Ok((cs, _)) ==> all_accepted(cs@),
    decreases unopened(table@, path_set(visited@)), entries_size(es@), 1nat,
{
    let ghost start = path_set(visited@);
    let ghost whole = load_entries(table@, es@, *current, start);
    let mut done: Vec<Command> = Vec::new();
    let ghost mut trees: Seq<Tree> = Seq::empty();
    let mut vis = visited;
    let mut i: usize = 0;
    assert(es@.skip(0) =~= es@);
    assert(trees + Seq::<Tree>::empty() =~= trees);
    while i < es.len()
        invariant
            i <= es@.len(),
            start.subset_of(path_set(vis@)),
            models_all(done@, trees),
            all_accepted(done@),
            whole == load_entries(table@, es@, *current, start),
            start == path_set(visited@),
            whole == match load_entries(table@, es@.skip(i as int), *current, path_set(vis@)) {
                Ok((ts, v)) => Ok((trees + ts, v)),
                Err(h) => Err(h),
            },
        decreases es@.len() - i,
    {
        let ghost here = path_set(vis@);
        let ghost rest = es@.skip(i as int);
        proof {
            lemma_unopened_grows_less(table@, start, here);
            lemma_entry_within(es@, i as int);
            assert(rest[0] == es@[i as int]);
            assert(rest.drop_first() =~= es@.skip(i + 1));
        }
        let step = load_entry_of(table, &es[i], current, vis);
        match step {
            Err(h) => {
                return Err(h);
            },
            Ok((cs, v)) => {
                let ghost first = load_entry(table@, rest[0], *current, here)->Ok_0.0;
                proof {
                    assert(here.union(path_set(v@)) =~= path_set(v@));
                    lemma_models_concat(done@, trees, cs@, first);
                    assert(trees + first + load_entries(table@, es@.skip(i + 1), *current, path_set(v@))->Ok_0.0
                        =~= trees + (first + load_entries(table@, es@.skip(i + 1), *current, path_set(v@))->Ok_0.0));
                    trees = trees + first;
                }
                let ghost before = done@;
                let ghost added = cs@;
                let mut cs = cs;
                done.append(&mut cs);
                proof {
                    assert forall|k: int| 0 <= k < done@.len() implies command_rejection(
                        #[trigger] done@[k],
                    ) is None by {
                        if k < before.len() {
                            assert(done@[k] == before[k]);
                        } else {
                            assert(done@[k] == added[k - before.len()]);
                        }
                    }
                }
                vis = v;
            },
        }
        i = i + 1;
    }
    assert(es@.skip(i as int) =~= Seq::<CommandEntry>::empty());
    Ok((done, vis))
}

fn load_raw_of(table: &Vec<Source>, raw: &RawCommand, current: &String, visited: Vec<String>) -> (r:
    Result<(Command, Vec<String>), Halt>)
    ensures
        agrees_one(r, load_raw(table@, *raw, *current, path_set(visited@))),
        r matches Ok((_, v)) ==> path_set(visited@).subset_of(path_set(v@)),
        r matches Ok((c, _)) ==> command_rejection(c) is None,
    decreases unopened(table@, path_set(visited@)), raw_size(*raw), 1nat,
{
    match load_entries_from(table, &raw.commands, current, visited) {
        Err(h) => Err(h),
        Ok((children, v)) => {
            let c = Command {
                name: raw.name.clone(),
                help: raw.help.clone(),
                args: copy_args(&raw.args),
                flags: copy_flags(&raw.flags),
                command: raw.command.clone(),
                commands: children,
            };
            match validate_node(&c) {
                Err(e) => Err(Halt::Fail(e)),
                Ok(()) => {
                    proof {
                        lemma_accepted_from_children(c);
                    }
                    Ok((c, v))
                },
            }
        },
    }
}

fn load_import_of(table: &Vec<Source>, current: &String, import: &String, visited: Vec<String>) -> (r:
    Result<(Vec<Command>, Vec<String>), Halt>)
    ensures
        agrees_list(r, load_import(table@, *current, *import, path_set(visited@))),
        grew(visited@, r),
        r matches Ok((cs, _)) ==> all_accepted(cs@),
    decreases unopened(table@, path_set(visited@)), 0nat, 1nat,
{
    proof {
        lemma_find_source_bounds(table@, current@, import@, 0);
    }
    match find_source_index(table, current.as_str(), import.as_str()) {
        None => Err(Halt::Read { from: current.clone(), import: import.clone() }),
        Some(k) => {
            let s = &table[k];
            assert(table@[k as int] == *s);
            match &s.canonical {
                Err(e) => Err(Halt::Fail(e.duplicate())),
                Ok(c) => {
                    if contains_path(&visited, c.as_str()) {
                        assert(s.canonical->Ok_0 == *c);
                        assert(find_source(table@, current@, import@, 0) == Some(k as int));
                        assert(path_set(visited@).contains(c@));
                        assert(load_import(table@, *current, *import, path_set(visited@)) == Err::<
                            (Seq<Tree>, Set<Seq<char>>),
                            Stop,
                        >(Stop::Fail(ErrorModel::CircularImport(c@))));
                        return Err(Halt::Fail(ConfigError::CircularImport(c.clone())));
                    }
                    let ghost before = visited@;
                    let mut vis = visited;
                    vis.push(c.clone());
                    proof {
                        assert(path_set(vis@) =~= path_set(before).insert(c@)) by {
                            assert forall|p: Seq<char>| path_set(before).insert(c@).contains(p) implies path_set(vis@).contains(p) by {
                                if p == c@ {
                                    assert(vis@[before.len() as int]@ == p);
                                } else {
                                    let j = choose|j: int| 0 <= j < before.len() && (#[trigger] before[j])@ == p;
                                    assert(vis@[j]@ == p);
                                }
                            }
                            assert forall|p: Seq<char>| path_set(vis@).contains(p) implies path_set(before).insert(c@).contains(p) by {
                                let j = choose|j: int| 0 <= j < vis@.len() && (#[trigger] vis@[j])@ == p;
                                if j < before.len() {
                                    assert(before[j]@ == p);
                                }
                            }
                        }
                        lemma_unopened_open(table@, path_set(before), k as int);
                    }
                    match &s.document {
                        Err(e) => Err(Halt::Fail(e.duplicate())),
                        Ok(Document::Command(raw)) => {
                            match load_raw_of(table, raw, &s.path, vis) {
                                Ok((c, v)) => {
                                    let mut cs: Vec<Command> = Vec::new();
                                    cs.push(c);
                                    proof {
                                        let t = load_raw(table@, *raw, s.path, path_set(before).insert(s.canonical->Ok_0@))->Ok_0.0;
                                        assert(cs@ =~= seq![c]);
                                        assert(models_all(cs@, seq![t]));
                                        assert(all_accepted(cs@));
                                    }
                                    Ok((cs, v))
                                },
                                Err(h) => Err(h),
                            }
                        },
                        Ok(Document::Entries(es)) => load_entries_from(table, es, &s.path, vis),
                    }
                },
            }
        },
    }
}

/// `cfg` carries the settings of the document `raw`.
pub open spec fn settings_of(cfg: Config, raw: RawConfig) -> bool {
    &&& cfg.device@ == raw.device@
    &&& cfg.channel == raw.channel
    &&& cfg.baud == raw.baud
    &&& cfg.shell@ == raw.shell@
    &&& views(cfg.shell_args@) == views(raw.shell_args@)
    &&& cfg.max_text_bytes == raw.max_text_bytes
    &&& cfg.chunk_delay == raw.chunk_delay
    &&& cfg.max_content_bytes == raw.max_content_bytes
}

/// The pass `r` over the document `raw` is what the spec `s` gives.
pub open spec fn step_agrees(
    r: LoadStep,
    raw: RawConfig,
    s: Result<(Seq<Tree>, Set<Seq<char>>), Stop>,
) -> bool {
    match s {
        Ok((ts, _)) => match r {
            LoadStep::Done(Ok(cfg)) => settings_of(cfg, raw) && models_all(cfg.commands@, ts),
            _ => false,
        },
        Err(Stop::Read(f, i)) => match r {
            LoadStep::Read { from, import } => from@ == f && import@ == i,
            _ => false,
        },
        Err(Stop::Fail(e)) => match r {
            LoadStep::Done(Err(err)) => err@ == e,
            _ => false,
        },
        Err(Stop::Invalid(j)) => match r {
            LoadStep::Done(Err(err)) => reports(Err(err), Some(j)),
            _ => false,
        },
    }
}

/// The materialization of a top-level document at `path`, whose canonical
/// path is `canonical`, over the imported files read so far; it must give at
/// least one command.
pub open spec fn load_root(
    table: Seq<Source>,
    raw: RawConfig,
    path: String,
    canonical: Seq<char>,
) -> Result<(Seq<Tree>, Set<Seq<char>>), Stop> {
    match load_entries(table, raw.commands@, path, Set::empty().insert(canonical)) {
        Ok((ts, v)) => if ts.len() == 0 {
            Err(
                Stop::Invalid(
                    Rejection {
                        text: "At least one command is required to be defined"@,
                        shows_node: false,
                    },
                ),
            )
        } else {
            Ok((ts, v))
        },
        Err(h) => Err(h),
    }
}

/// Reopening a file opened before on the same path of imports, or anywhere
/// earlier in the same load, is a circular import.
pub proof fn lemma_reopen_is_circular(
    table: Seq<Source>,
    current: String,
    import: String,
    visited: Set<Seq<char>>,
    k: int,
)
    requires
        find_source(table, current@, import@, 0) == Some(k),
        table[k].canonical is Ok,
        visited.contains(table[k].canonical->Ok_0@),
    ensures
        load_import(table, current, import, visited) == Err::<(Seq<Tree>, Set<Seq<char>>), Stop>(
            Stop::Fail(ErrorModel::CircularImport(table[k].canonical->Ok_0@)),
        ),
{
}

/// Loads a configuration from declarations spread over files, with the
/// imported files that the caller has read so far.
#[derive(Debug)]
pub struct ConfigLoader {
    /// The directory that the top-level file is named from.
    pub base_path: String,
    /// The imported files read so far.
    pub sources: Vec<Source>,
}

impl ConfigLoader {
    pub fn new(base_path: &str) -> (r: ConfigLoader)
        ensures
            r.base_path@ == base_path@,
            r.sources@.len() == 0,
    {
        ConfigLoader { base_path: base_path.to_owned(), sources: Vec::new() }
    }

    /// Records what reading an import gave.
    pub fn add_source(&mut self, source: Source)
        ensures
            final(self).sources@ == old(self).sources@.push(source),
            final(self).base_path == old(self).base_path,
    {
        self.sources.push(source);
    }

    /// One pass over the document `raw` read at `path`, whose canonical path
    /// is `canonical`: the configuration, the first import not read yet, or
    /// the first error, in declaration order. Each command is checked against
    /// the command rules once its children are in, so a configuration given
    /// back passes validation.
    pub fn resolve(&self, raw: &RawConfig, path: &String, canonical: &String) -> (r: LoadStep)
        ensures
            step_agrees(r, *raw, load_root(self.sources@, *raw, *path, canonical@)),
            r matches LoadStep::Done(Ok(cfg)) ==> cfg.check() is None,
    {
        let mut visited: Vec<String> = Vec::new();
        visited.push(canonical.clone());
        proof {
            assert(path_set(visited@) =~= Set::<Seq<char>>::empty().insert(canonical@)) by {
                assert forall|p: Seq<char>| path_set(visited@).contains(p) implies p == canonical@ by {
                    let j = choose|j: int| 0 <= j < visited@.len() && (#[trigger] visited@[j])@ == p;
                }
                assert(visited@[0]@ == canonical@);
            }
        }
        match load_entries_from(&self.sources, &raw.commands, path, visited) {
            Err(Halt::Read { from, import }) => LoadStep::Read { from, import },
            Err(Halt::Fail(e)) => LoadStep::Done(Err(e)),
            Ok((commands, _)) => {
                if commands.len() == 0 {
                    let m = "At least one command is required to be defined".to_owned();
                    return LoadStep::Done(Err(ConfigError::ValidationError(m)));
                }
                proof {
                    lemma_list_accepted(commands@, 0);
                }
                let shell_args = copy_strings(&raw.shell_args);
                LoadStep::Done(
                    Ok(
                        Config {
                            device: raw.device.clone(),
                            channel: raw.channel,
                            baud: raw.baud,
                            shell: raw.shell.clone(),
                            shell_args,
                            max_text_bytes: raw.max_text_bytes,
                            chunk_delay: raw.chunk_delay,
                            max_content_bytes: raw.max_content_bytes,
                            commands,
                        },
                    ),
                )
            },
        }
    }
}

} // verus!
