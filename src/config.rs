//! The command tree (arguments, flags, leaves and groups), its structural
//! rules, and the errors of loading it.
use vstd::prelude::*;

use crate::text::{chars_of, joined, trim, trim_bounds, views};

verus! {

/// A positional parameter of a leaf command.
#[derive(Debug, Clone)]
pub struct Arg {
    pub name: String,
    pub help: String,
    pub default: Option<String>,
    pub greedy: bool,
}

/// A named parameter of a leaf command; without `arg` it is a boolean toggle.
#[derive(Debug, Clone)]
pub struct Flag {
    pub long: String,
    pub short: Option<String>,
    pub help: Option<String>,
    pub arg: Option<String>,
    pub required: bool,
    pub default: Option<String>,
    pub greedy: bool,
}

/// A node of the command tree: a leaf with a `command` template, or a group
/// with child `commands`.
#[derive(Debug)]
pub struct Command {
    pub name: String,
    pub help: String,
    pub args: Vec<Arg>,
    pub flags: Vec<Flag>,
    pub command: String,
    pub commands: Vec<Command>,
}

/// Transport settings and the top-level commands.
#[derive(Debug)]
pub struct Config {
    pub device: String,
    pub channel: u32,
    pub baud: Option<u32>,
    pub shell: String,
    pub shell_args: Vec<String>,
    pub max_text_bytes: usize,
    pub chunk_delay: u64,
    pub max_content_bytes: usize,
    pub commands: Vec<Command>,
}

/// Why a configuration could not be loaded.
#[derive(Debug, Clone)]
pub enum ConfigError {
    /// The path, and what the file system said.
    FileNotFound(String, String),
    /// The path, and what the YAML reader said.
    ParseError(String, String),
    /// The canonical path that was opened a second time.
    CircularImport(String),
    ValidationError(String),
    /// Every place that was searched.
    ConfigNotFound(Vec<String>),
}

/// The meaning of a [`ConfigError`].
pub enum ErrorModel {
    FileNotFound(Seq<char>, Seq<char>),
    ParseError(Seq<char>, Seq<char>),
    CircularImport(Seq<char>),
    ValidationError(Seq<char>),
    ConfigNotFound(Seq<Seq<char>>),
}

impl View for ConfigError {
    type V = ErrorModel;

    open spec fn view(&self) -> ErrorModel {
        match self {
            ConfigError::FileNotFound(p, e) => ErrorModel::FileNotFound(p@, e@),
            ConfigError::ParseError(p, e) => ErrorModel::ParseError(p@, e@),
            ConfigError::CircularImport(p) => ErrorModel::CircularImport(p@),
            ConfigError::ValidationError(m) => ErrorModel::ValidationError(m@),
            ConfigError::ConfigNotFound(ps) => ErrorModel::ConfigNotFound(views(ps@)),
        }
    }
}

pub(crate) fn copy_strings(v: &Vec<String>) -> (r: Vec<String>)
    ensures
        r@ == v@,
{
    let mut r: Vec<String> = Vec::new();
    let mut i: usize = 0;
    while i < v.len()
        invariant
            i <= v@.len(),
            r@ == v@.take(i as int),
        decreases v@.len() - i,
    {
        r.push(v[i].clone());
        i = i + 1;
        assert(r@ =~= v@.take(i as int));
    }
    assert(v@.take(i as int) =~= v@);
    r
}

impl ConfigError {
    /// A copy of this error.
    pub fn duplicate(&self) -> (r: ConfigError)
        ensures
            r@ == self@,
    {
        match self {
            ConfigError::FileNotFound(p, e) => ConfigError::FileNotFound(p.clone(), e.clone()),
            ConfigError::ParseError(p, e) => ConfigError::ParseError(p.clone(), e.clone()),
            ConfigError::CircularImport(p) => ConfigError::CircularImport(p.clone()),
            ConfigError::ValidationError(m) => ConfigError::ValidationError(m.clone()),
            ConfigError::ConfigNotFound(ps) => ConfigError::ConfigNotFound(copy_strings(ps)),
        }
    }
}

/// The searched paths, one indented line each, joined by line breaks.
pub open spec fn searched_lines(ps: Seq<Seq<char>>) -> Seq<char>
    decreases ps.len(),
{
    if ps.len() == 0 {
        Seq::empty()
    } else if ps.len() == 1 {
        "  - "@ + ps[0]
    } else {
        searched_lines(ps.drop_last()) + "\n"@ + "  - "@ + ps.last()
    }
}

/// The text that reports a load error.
pub open spec fn error_text(e: ErrorModel) -> Seq<char> {
    match e {
        ErrorModel::FileNotFound(p, c) => "Failed to read file '"@ + p + "': "@ + c,
        ErrorModel::ParseError(p, c) => "Failed to parse YAML in '"@ + p + "': "@ + c,
        ErrorModel::CircularImport(p) => "Circular import detected: '"@ + p + "'"@,
        ErrorModel::ValidationError(m) => "Validation failed: '"@ + m + "'"@,
        ErrorModel::ConfigNotFound(ps) => "Config file not found. Searched locations:\n"@
            + searched_lines(ps),
    }
}

impl ConfigError {
    /// The text that reports this error.
    pub fn message(&self) -> (r: String)
        ensures
            r@ == error_text(self@),
    {
        match self {
            ConfigError::FileNotFound(p, c) => {
                let mut m = "Failed to read file '".to_owned();
                m.append(p.as_str());
                m.append("': ");
                m.append(c.as_str());
                m
            },
            ConfigError::ParseError(p, c) => {
                let mut m = "Failed to parse YAML in '".to_owned();
                m.append(p.as_str());
                m.append("': ");
                m.append(c.as_str());
                m
            },
            ConfigError::CircularImport(p) => {
                let mut m = "Circular import detected: '".to_owned();
                m.append(p.as_str());
                m.append("'");
                m
            },
            ConfigError::ValidationError(v) => {
                let mut m = "Validation failed: '".to_owned();
                m.append(v.as_str());
                m.append("'");
                m
            },
            ConfigError::ConfigNotFound(ps) => {
                let mut m = "Config file not found. Searched locations:\n".to_owned();
                let ghost head = m@;
                let mut i: usize = 0;
                assert(views(ps@).take(0) =~= Seq::<Seq<char>>::empty());
                while i < ps.len()
                    invariant
                        i <= ps@.len(),
                        m@ == head + searched_lines(views(ps@).take(i as int)),
                    decreases ps@.len() - i,
                {
                    if i > 0 {
                        m.append("\n");
                    }
                    m.append("  - ");
                    m.append(ps[i].as_str());
                    proof {
                        let t = views(ps@).take(i + 1);
                        assert(t.drop_last() =~= views(ps@).take(i as int));
                        assert(t.last() == ps@[i as int]@);
                        if i == 0 {
                            assert(t.len() == 1);
                        }
                    }
                    assert(m@ =~= head + searched_lines(views(ps@).take(i + 1)));
                    i = i + 1;
                }
                assert(views(ps@).take(i as int) =~= views(ps@));
                m
            },
        }
    }
}

fn copy_text(o: &Option<String>) -> (r: Option<String>)
    ensures
        r == *o,
{
    match o {
        Some(s) => Some(s.clone()),
        None => None,
    }
}

impl Arg {
    /// A copy of this argument.
    pub fn duplicate(&self) -> (r: Arg)
        ensures
            r == *self,
    {
        Arg {
            name: self.name.clone(),
            help: self.help.clone(),
            default: copy_text(&self.default),
            greedy: self.greedy,
        }
    }
}

impl Flag {
    /// A copy of this flag.
    pub fn duplicate(&self) -> (r: Flag)
        ensures
            r == *self,
    {
        Flag {
            long: self.long.clone(),
            short: copy_text(&self.short),
            help: copy_text(&self.help),
            arg: copy_text(&self.arg),
            required: self.required,
            default: copy_text(&self.default),
            greedy: self.greedy,
        }
    }
}

/// Relies on the `Debug` impl that `derive` wrote: a readable dump of the value.
#[verifier::external_body]
fn debug_text<T: std::fmt::Debug>(x: &T) -> String {
    format!("{x:?}")
}

/// What a failed check reports: the message, or only its start when the
/// dumped node follows it.
pub struct Rejection {
    pub text: Seq<char>,
    pub shows_node: bool,
}

/// `r` is the outcome that `check` describes.
pub open spec fn reports(r: Result<(), ConfigError>, check: Option<Rejection>) -> bool {
    match check {
        None => r is Ok,
        Some(j) => match r {
            Err(ConfigError::ValidationError(m)) => if j.shows_node {
                m@.len() >= j.text.len() && m@.subrange(0, j.text.len() as int) == j.text
            } else {
                m@ == j.text
            },
            _ => false,
        },
    }
}

/// Structural rules of a configuration item.
pub trait Validate {
    /// The first rule that the item breaks, if any.
    spec fn check(&self) -> Option<Rejection>;

    fn validate(&self) -> (r: Result<(), ConfigError>)
        ensures
            reports(r, self.check()),
    ;
}

pub open spec fn is_ascii_alnum(c: char) -> bool {
    ('a' <= c && c <= 'z') || ('A' <= c && c <= 'Z') || ('0' <= c && c <= '9')
}

/// `--` followed by letters, digits and hyphens only.
pub open spec fn is_long_flag_form(t: Seq<char>) -> bool {
    &&& t.len() >= 2
    &&& t[0] == '-'
    &&& t[1] == '-'
    &&& forall|k: int| 2 <= k < t.len() ==> is_ascii_alnum(#[trigger] t[k]) || t[k] == '-'
}

/// `-` followed by one letter or digit.
pub open spec fn is_short_flag_form(t: Seq<char>) -> bool {
    t.len() == 2 && t[0] == '-' && is_ascii_alnum(t[1])
}

fn is_ascii_alnum_char(c: char) -> (r: bool)
    ensures
        r == is_ascii_alnum(c),
{
    ('a' <= c && c <= 'z') || ('A' <= c && c <= 'Z') || ('0' <= c && c <= '9')
}

/// Whether `s`, once trimmed, is a well-formed long flag name.
pub fn is_long_flag_name(s: &str) -> (r: bool)
    ensures
        r == is_long_flag_form(trim(s@)),
{
    let v = chars_of(s);
    assert(v@.skip(0) =~= v@);
    let (i, j) = trim_bounds(&v, 0);
    let ghost t = v@.subrange(i as int, j as int);
    if j - i < 2 {
        return false;
    }
    assert(t[0] == v@[i as int] && t[1] == v@[i + 1]);
    if v[i] != '-' || v[i + 1] != '-' {
        return false;
    }
    let mut k: usize = i + 2;
    while k < j
        invariant
            i + 2 <= k <= j <= v@.len(),
            t == v@.subrange(i as int, j as int),
            t == trim(s@),
            t.len() >= 2 && t[0] == '-' && t[1] == '-',
            forall|m: int| 2 <= m < k - i ==> is_ascii_alnum(#[trigger] t[m]) || t[m] == '-',
        decreases j - k,
    {
        if !(is_ascii_alnum_char(v[k]) || v[k] == '-') {
            assert(t[k - i] == v@[k as int]);
            return false;
        }
        k = k + 1;
    }
    true
}

/// Whether `s`, once trimmed, is a well-formed short flag name.
pub fn is_short_flag_name(s: &str) -> (r: bool)
    ensures
        r == is_short_flag_form(trim(s@)),
{
    let v = chars_of(s);
    assert(v@.skip(0) =~= v@);
    let (i, j) = trim_bounds(&v, 0);
    j - i == 2 && v[i] == '-' && is_ascii_alnum_char(v[i + 1])
}

impl Validate for Arg {
    open spec fn check(&self) -> Option<Rejection> {
        match self.default {
            Some(d) if d@.len() == 0 => Some(
                Rejection {
                    text: "Default values in arguments cannot be empty: "@,
                    shows_node: true,
                },
            ),
            _ => None,
        }
    }

    fn validate(&self) -> (r: Result<(), ConfigError>) {
        if let Some(d) = &self.default {
            if d.as_str().is_empty() {
                let d = debug_text(self);
                let m = joined("Default values in arguments cannot be empty: ", d.as_str());
                assert(m@.subrange(0, "Default values in arguments cannot be empty: "@.len() as int)
                    =~= "Default values in arguments cannot be empty: "@);
                return Err(ConfigError::ValidationError(m));
            }
        }
        Ok(())
    }
}

impl Validate for Flag {
    open spec fn check(&self) -> Option<Rejection> {
        if !is_long_flag_form(trim(self.long@)) {
            Some(Rejection { text: "Invalid long flag value: "@ + self.long@, shows_node: false })
        } else if self.short is Some && !is_short_flag_form(trim(self.short->0@)) {
            Some(
                Rejection {
                    text: "Invalid short flag value: "@ + self.short->0@,
                    shows_node: false,
                },
            )
        } else if self.greedy && self.arg is None {
            Some(
                Rejection {
                    text: "Greedy flag "@ + self.long@ + " must have an 'arg' field"@,
                    shows_node: false,
                },
            )
        } else {
            None
        }
    }

    fn validate(&self) -> (r: Result<(), ConfigError>) {
        if !is_long_flag_name(self.long.as_str()) {
            let m = joined("Invalid long flag value: ", self.long.as_str());
            return Err(ConfigError::ValidationError(m));
        }
        if let Some(short) = &self.short {
            if !is_short_flag_name(short.as_str()) {
                let m = joined("Invalid short flag value: ", short.as_str());
                return Err(ConfigError::ValidationError(m));
            }
        }
        if self.greedy && self.arg.is_none() {
            let m = joined("Greedy flag ", self.long.as_str());
            let m = joined(m.as_str(), " must have an 'arg' field");
            return Err(ConfigError::ValidationError(m));
        }
        Ok(())
    }
}

/// How many of the arguments are greedy.
pub open spec fn greedy_arg_count(args: Seq<Arg>) -> nat
    decreases args.len(),
{
    if args.len() == 0 {
        0
    } else {
        greedy_arg_count(args.drop_last()) + if args.last().greedy {
            1nat
        } else {
            0nat
        }
    }
}

/// How many of the flags are greedy.
pub open spec fn greedy_flag_count(flags: Seq<Flag>) -> nat
    decreases flags.len(),
{
    if flags.len() == 0 {
        0
    } else {
        greedy_flag_count(flags.drop_last()) + if flags.last().greedy {
            1nat
        } else {
            0nat
        }
    }
}

/// The first of `items[from..]` that its own rules reject.
pub open spec fn first_args_rejection(items: Seq<Arg>, from: int) -> Option<Rejection>
    decreases items.len() - from,
{
    if from < 0 || from >= items.len() {
        None
    } else if items[from].check() is Some {
        items[from].check()
    } else {
        first_args_rejection(items, from + 1)
    }
}

/// The first of `items[from..]` that its own rules reject.
pub open spec fn first_flags_rejection(items: Seq<Flag>, from: int) -> Option<Rejection>
    decreases items.len() - from,
{
    if from < 0 || from >= items.len() {
        None
    } else if items[from].check() is Some {
        items[from].check()
    } else {
        first_flags_rejection(items, from + 1)
    }
}

/// A rule about the command named `name`, followed by `tail`.
pub open spec fn named_rule(name: Seq<char>, tail: &str) -> Option<Rejection> {
    Some(Rejection { text: "Command '"@ + name + tail@, shows_node: false })
}

/// The rules of a leaf's own parameters.
pub open spec fn leaf_rejection(name: Seq<char>, args: Seq<Arg>, flags: Seq<Flag>) -> Option<
    Rejection,
> {
    let ga = greedy_arg_count(args);
    let gf = greedy_flag_count(flags);
    if first_args_rejection(args, 0) is Some {
        first_args_rejection(args, 0)
    } else if first_flags_rejection(flags, 0) is Some {
        first_flags_rejection(flags, 0)
    } else if ga + gf > 1 {
        named_rule(name, "': only one arg or flag can be greedy")
    } else if ga == 1 && !args.last().greedy {
        named_rule(name, "': greedy arg must be the last arg")
    } else if gf == 1 && !flags.last().greedy {
        named_rule(name, "': greedy flag must be the last flag")
    } else {
        None
    }
}

/// The first rule that a node breaks by itself, whatever its children are:
/// its name, leaf or group, and a leaf's parameters.
pub open spec fn node_rejection(
    name: Seq<char>,
    args: Seq<Arg>,
    flags: Seq<Flag>,
    command: Seq<char>,
    children: nat,
) -> Option<Rejection> {
    let is_group = children > 0;
    let is_leaf = command.len() > 0;
    if name.len() == 0 {
        Some(Rejection { text: "Command names cannot be empty: "@, shows_node: true })
    } else if is_group && is_leaf {
        named_rule(name, "': cannot have both 'command' and 'commands'")
    } else if !is_group && !is_leaf {
        named_rule(name, "': must have either 'command' or 'commands'")
    } else if is_group {
        if args.len() > 0 || flags.len() > 0 {
            named_rule(name, "': group commands cannot have args or flags")
        } else {
            None
        }
    } else {
        leaf_rejection(name, args, flags)
    }
}

/// The rules of the command `c` itself.
pub open spec fn own_rejection(c: Command) -> Option<Rejection> {
    node_rejection(c.name@, c.args@, c.flags@, c.command@, c.commands@.len())
}

/// The first rule that the command, or a command below it, breaks: its own
/// rules first, then its children in order.
pub open spec fn command_rejection(c: Command) -> Option<Rejection>
    decreases c, 1nat,
{
    if own_rejection(c) is Some {
        own_rejection(c)
    } else if c.commands@.len() > 0 {
        children_rejection(c, 0)
    } else {
        None
    }
}

/// The first of the children `c.commands[from..]` that is rejected.
pub open spec fn children_rejection(c: Command, from: int) -> Option<Rejection>
    decreases c, 0nat, c.commands@.len() - from,
{
    if from < 0 || from >= c.commands@.len() {
        None
    } else {
        let sub = c.commands@[from];
        if command_rejection(sub) is Some {
            command_rejection(sub)
        } else {
            children_rejection(c, from + 1)
        }
    }
}

/// The first of `cmds[from..]` that is rejected.
pub open spec fn list_rejection(cmds: Seq<Command>, from: int) -> Option<Rejection>
    decreases cmds.len() - from,
{
    if from < 0 || from >= cmds.len() {
        None
    } else if command_rejection(cmds[from]) is Some {
        command_rejection(cmds[from])
    } else {
        list_rejection(cmds, from + 1)
    }
}

fn named_error(c: &Command, tail: &str) -> (r: Result<(), ConfigError>)
    ensures
        reports(r, named_rule(c.name@, tail)),
{
    let m = joined("Command '", c.name.as_str());
    let m = joined(m.as_str(), tail);
    Err(ConfigError::ValidationError(m))
}

fn count_greedy_args(args: &Vec<Arg>) -> (n: usize)
    ensures
        n == greedy_arg_count(args@),
{
    let mut n: usize = 0;
    let mut i: usize = 0;
    while i < args.len()
        invariant
            i <= args@.len(),
            n == greedy_arg_count(args@.take(i as int)),
            n <= i,
        decreases args@.len() - i,
    {
        assert(args@.take(i + 1).drop_last() =~= args@.take(i as int));
        if args[i].greedy {
            n = n + 1;
        }
        i = i + 1;
    }
    assert(args@.take(i as int) =~= args@);
    n
}

fn count_greedy_flags(flags: &Vec<Flag>) -> (n: usize)
    ensures
        n == greedy_flag_count(flags@),
{
    let mut n: usize = 0;
    let mut i: usize = 0;
    while i < flags.len()
        invariant
            i <= flags@.len(),
            n == greedy_flag_count(flags@.take(i as int)),
            n <= i,
        decreases flags@.len() - i,
    {
        assert(flags@.take(i + 1).drop_last() =~= flags@.take(i as int));
        if flags[i].greedy {
            n = n + 1;
        }
        i = i + 1;
    }
    assert(flags@.take(i as int) =~= flags@);
    n
}

fn validate_leaf(c: &Command) -> (r: Result<(), ConfigError>)
    ensures
        reports(r, leaf_rejection(c.name@, c.args@, c.flags@)),
{
    let mut i: usize = 0;
    while i < c.args.len()
        invariant
            i <= c.args@.len(),
            first_args_rejection(c.args@, 0) == first_args_rejection(c.args@, i as int),
        decreases c.args@.len() - i,
    {
        let r = c.args[i].validate();
        if r.is_err() {
            return r;
        }
        i = i + 1;
    }
    let mut i: usize = 0;
    while i < c.flags.len()
        invariant
            i <= c.flags@.len(),
            first_args_rejection(c.args@, 0) is None,
            first_flags_rejection(c.flags@, 0) == first_flags_rejection(c.flags@, i as int),
        decreases c.flags@.len() - i,
    {
        let r = c.flags[i].validate();
        if r.is_err() {
            return r;
        }
        i = i + 1;
    }
    let ga = count_greedy_args(&c.args);
    let gf = count_greedy_flags(&c.flags);
    if ga > 1 || gf > 1 || (ga == 1 && gf == 1) {
        return named_error(c, "': only one arg or flag can be greedy");
    }
    if ga == 1 && !c.args[c.args.len() - 1].greedy {
        return named_error(c, "': greedy arg must be the last arg");
    }
    if gf == 1 && !c.flags[c.flags.len() - 1].greedy {
        return named_error(c, "': greedy flag must be the last flag");
    }
    Ok(())
}

/// Checks the rules of `c` itself, not those of its children.
pub fn validate_node(c: &Command) -> (r: Result<(), ConfigError>)
    ensures
        reports(r, own_rejection(*c)),
{
    let is_group = c.commands.len() > 0;
    let is_leaf = !c.command.as_str().is_empty();
    if c.name.as_str().is_empty() {
        let d = debug_text(c);
        let m = joined("Command names cannot be empty: ", d.as_str());
        assert(m@.subrange(0, "Command names cannot be empty: "@.len() as int)
            =~= "Command names cannot be empty: "@);
        return Err(ConfigError::ValidationError(m));
    }
    if is_group && is_leaf {
        return named_error(c, "': cannot have both 'command' and 'commands'");
    }
    if !is_group && !is_leaf {
        return named_error(c, "': must have either 'command' or 'commands'");
    }
    if is_group {
        if c.args.len() > 0 || c.flags.len() > 0 {
            return named_error(c, "': group commands cannot have args or flags");
        }
        return Ok(());
    }
    validate_leaf(c)
}

/// A command whose own rules hold and whose children are all accepted is
/// accepted.
pub proof fn lemma_accepted_from_children(c: Command)
    requires
        own_rejection(c) is None,
        forall|i: int| 0 <= i < c.commands@.len() ==> command_rejection(#[trigger] c.commands@[i]) is None,
    ensures
        command_rejection(c) is None,
{
    lemma_children_accepted(c, 0);
}

proof fn lemma_children_accepted(c: Command, from: int)
    requires
        0 <= from,
        forall|i: int| 0 <= i < c.commands@.len() ==> command_rejection(#[trigger] c.commands@[i]) is None,
    ensures
        children_rejection(c, from) is None,
    decreases c.commands@.len() - from,
{
    if from < c.commands@.len() {
        lemma_children_accepted(c, from + 1);
    }
}

fn validate_command(c: &Command) -> (r: Result<(), ConfigError>)
    ensures
        reports(r, command_rejection(*c)),
    decreases c,
{
    let own = validate_node(c);
    if own.is_err() {
        return own;
    }
    let mut i: usize = 0;
    while i < c.commands.len()
        invariant
            i <= c.commands@.len(),
            own_rejection(*c) is None,
            c.commands@.len() > 0 ==> children_rejection(*c, 0) == children_rejection(*c, i as int),
        decreases c.commands@.len() - i,
    {
        let r = validate_command(&c.commands[i]);
        if r.is_err() {
            return r;
        }
        i = i + 1;
    }
    Ok(())
}

impl Validate for Command {
    open spec fn check(&self) -> Option<Rejection> {
        command_rejection(*self)
    }

    fn validate(&self) -> (r: Result<(), ConfigError>) {
        validate_command(self)
    }
}

impl Validate for Config {
    open spec fn check(&self) -> Option<Rejection> {
        if self.commands@.len() == 0 {
            Some(
                Rejection {
                    text: "At least one command is required to be defined"@,
                    shows_node: false,
                },
            )
        } else {
            list_rejection(self.commands@, 0)
        }
    }

    fn validate(&self) -> (r: Result<(), ConfigError>) {
        if self.commands.len() == 0 {
            let m = "At least one command is required to be defined".to_owned();
            return Err(ConfigError::ValidationError(m));
        }
        let mut i: usize = 0;
        while i < self.commands.len()
            invariant
                i <= self.commands@.len(),
                self.commands@.len() > 0,
                list_rejection(self.commands@, 0) == list_rejection(self.commands@, i as int),
            decreases self.commands@.len() - i,
        {
            let r = validate_command(&self.commands[i]);
            if r.is_err() {
                return r;
            }
            i = i + 1;
        }
        Ok(())
    }
}

} // verus!
