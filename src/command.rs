//! Resolution of an incoming message against the command tree: matching of
//! names, binding of arguments and flags, and the help texts.
use vstd::prelude::*;

use crate::config::{is_long_flag_form, is_short_flag_form, Arg, Command, Flag, Validate};
use crate::text::{
    chars_of, decimal, join_from, join_words, joined, push_char, push_decimal, same_text,
    split_words, string_of, trim, trim_end, trim_start, trimmed_tail, views, words, is_space,
};

verus! {

/// The map that a log of `(key, value)` pairs leaves behind: a later pair
/// overrides an earlier one with the same key.
pub open spec fn map_of(s: Seq<(String, String)>) -> Map<Seq<char>, Seq<char>>
    decreases s.len(),
{
    if s.len() == 0 {
        Map::empty()
    } else {
        map_of(s.drop_last()).insert(s.last().0@, s.last().1@)
    }
}

proof fn lemma_map_of_tail_without(s: Seq<(String, String)>, i: int, k: Seq<char>)
    requires
        0 <= i <= s.len(),
        forall|j: int| i <= j < s.len() ==> (#[trigger] s[j]).0@ != k,
    ensures
        map_of(s).contains_key(k) == map_of(s.take(i)).contains_key(k),
        map_of(s).contains_key(k) ==> map_of(s)[k] == map_of(s.take(i))[k],
    decreases s.len() - i,
{
    if i < s.len() {
        assert(s.drop_last().take(i) =~= s.take(i));
        assert(s.last() == s[s.len() - 1]);
        lemma_map_of_tail_without(s.drop_last(), i, k);
    } else {
        assert(s.take(i) =~= s);
    }
}

/// The variables that a resolved command binds, by name.
#[derive(Debug, Clone)]
pub struct Bindings {
    entries: Vec<(String, String)>,
}

impl View for Bindings {
    type V = Map<Seq<char>, Seq<char>>;

    closed spec fn view(&self) -> Map<Seq<char>, Seq<char>> {
        map_of(self.entries@)
    }
}

impl Bindings {
    pub fn new() -> (r: Bindings)
        ensures
            r@ == Map::<Seq<char>, Seq<char>>::empty(),
    {
        Bindings { entries: Vec::new() }
    }

    /// Binds `key` to `value`, replacing what `key` was bound to.
    pub fn insert(&mut self, key: String, value: String)
        ensures
            final(self)@ == old(self)@.insert(key@, value@),
    {
        let ghost before = self.entries@;
        self.entries.push((key, value));
        assert(self.entries@.drop_last() =~= before);
    }

    /// The value bound to `key`.
    pub fn get(&self, key: &str) -> (r: Option<&String>)
        ensures
            r is Some == self@.contains_key(key@),
            r is Some ==> r->0@ == self@[key@],
    {
        let mut i: usize = self.entries.len();
        while i > 0
            invariant
                i <= self.entries@.len(),
                forall|j: int| i <= j < self.entries@.len() ==> (#[trigger] self.entries@[j]).0@
                    != key@,
            decreases i,
        {
            if same_text(self.entries[i - 1].0.as_str(), key) {
                proof {
                    let s = self.entries@;
                    lemma_map_of_tail_without(s, i as int, key@);
                    assert(s.take(i as int).drop_last() =~= s.take(i - 1));
                    assert(s.take(i as int).last() == s[i - 1]);
                }
                return Some(&self.entries[i - 1].1);
            }
            i = i - 1;
        }
        proof {
            lemma_map_of_tail_without(self.entries@, 0, key@);
            assert(self.entries@.take(0) =~= Seq::<(String, String)>::empty());
        }
        None
    }

    pub fn contains_key(&self, key: &str) -> (r: bool)
        ensures
            r == self@.contains_key(key@),
    {
        self.get(key).is_some()
    }

    pub fn is_empty(&self) -> (r: bool)
        ensures
            r == (self@ == Map::<Seq<char>, Seq<char>>::empty()),
    {
        if self.entries.len() == 0 {
            true
        } else {
            let ghost s = self.entries@;
            assert(map_of(s).contains_key(s.last().0@));
            assert(!Map::<Seq<char>, Seq<char>>::empty().contains_key(s.last().0@));
            false
        }
    }

    /// Every binding as a `(key, value)` pair, in the order they were made; a
    /// later pair overrides an earlier one with the same key.
    pub fn pairs(&self) -> (r: &Vec<(String, String)>)
        ensures
            map_of(r@) == self@,
    {
        &self.entries
    }
}

/// What a message resolves to.
#[derive(Debug)]
pub enum AliasResult {
    /// The command template of a leaf, and the variables to run it with.
    Command { command: String, env: Bindings },
    HelpText(String),
}

/// Why a message could not be resolved.
#[derive(Debug, Clone)]
pub enum AliasError {
    UnknownAlias(String),
    MissingRequiredArg(String),
    MissingRequiredFlag(String),
    MissingFlagValue(String),
    UnknownFlag(String),
    TooManyArgs { expected: usize },
}

/// The meaning of an [`AliasResult`].
pub enum Outcome {
    Run(Seq<char>, Map<Seq<char>, Seq<char>>),
    Help(Seq<char>),
}

/// The meaning of an [`AliasError`].
pub enum Failure {
    UnknownAlias(Seq<char>),
    MissingRequiredArg(Seq<char>),
    MissingRequiredFlag(Seq<char>),
    MissingFlagValue(Seq<char>),
    UnknownFlag(Seq<char>),
    TooManyArgs(nat),
}

impl View for AliasResult {
    type V = Outcome;

    open spec fn view(&self) -> Outcome {
        match self {
            AliasResult::Command { command, env } => Outcome::Run(command@, env@),
            AliasResult::HelpText(t) => Outcome::Help(t@),
        }
    }
}

impl View for AliasError {
    type V = Failure;

    open spec fn view(&self) -> Failure {
        match self {
            AliasError::UnknownAlias(s) => Failure::UnknownAlias(s@),
            AliasError::MissingRequiredArg(s) => Failure::MissingRequiredArg(s@),
            AliasError::MissingRequiredFlag(s) => Failure::MissingRequiredFlag(s@),
            AliasError::MissingFlagValue(s) => Failure::MissingFlagValue(s@),
            AliasError::UnknownFlag(s) => Failure::UnknownFlag(s@),
            AliasError::TooManyArgs { expected } => Failure::TooManyArgs(*expected as nat),
        }
    }
}

/// The meaning of a resolution.
pub open spec fn resolution(r: Result<AliasResult, AliasError>) -> Result<Outcome, Failure> {
    match r {
        Ok(a) => Ok(a@),
        Err(e) => Err(e@),
    }
}

/// The text that reports a failure to the sender.
pub open spec fn failure_text(f: Failure) -> Seq<char> {
    match f {
        Failure::UnknownAlias(s) => "Unknown command: "@ + s,
        Failure::MissingRequiredArg(s) => "Missing required argument: "@ + s,
        Failure::MissingRequiredFlag(s) => "Missing required flag: "@ + s,
        Failure::MissingFlagValue(s) => "Flag "@ + s + " requires a value"@,
        Failure::UnknownFlag(s) => "Unknown flag: "@ + s,
        Failure::TooManyArgs(n) => "Too many arguments (expected "@ + decimal(n) + ")"@,
    }
}

impl AliasError {
    /// The text that reports this error to the sender.
    pub fn message(&self) -> (r: String)
        ensures
            r@ == failure_text(self@),
    {
        match self {
            AliasError::UnknownAlias(s) => joined("Unknown command: ", s.as_str()),
            AliasError::MissingRequiredArg(s) => joined("Missing required argument: ", s.as_str()),
            AliasError::MissingRequiredFlag(s) => joined("Missing required flag: ", s.as_str()),
            AliasError::MissingFlagValue(s) => {
                let m = joined("Flag ", s.as_str());
                joined(m.as_str(), " requires a value")
            },
            AliasError::UnknownFlag(s) => joined("Unknown flag: ", s.as_str()),
            AliasError::TooManyArgs { expected } => {
                let mut m = "Too many arguments (expected ".to_owned();
                push_decimal(&mut m, *expected);
                m.append(")");
                m
            },
        }
    }
}

/// `" - help"` when `help` is not empty.
pub open spec fn help_suffix(help: Seq<char>) -> Seq<char> {
    if help.len() > 0 {
        " - "@ + help
    } else {
        Seq::empty()
    }
}

/// `prefix name - help` and a line break.
pub open spec fn title_line(c: Command, prefix: Seq<char>) -> Seq<char> {
    prefix + c.name@ + help_suffix(c.help@) + "\n"@
}

/// One indented line per command of `cmds`, each name behind `prefix`.
pub open spec fn listing_lines(cmds: Seq<Command>, prefix: Seq<char>) -> Seq<char>
    decreases cmds.len(),
{
    if cmds.len() == 0 {
        Seq::empty()
    } else {
        listing_lines(cmds.drop_last(), prefix) + "  "@ + title_line(cmds.last(), prefix)
    }
}

/// The closing hint of a listing.
pub open spec fn details_hint(prefix: Seq<char>) -> Seq<char> {
    "\nSend "@ + prefix + "<command> --help for details."@
}

/// The listing of the top-level commands.
pub open spec fn help_listing(cmds: Seq<Command>, prefix: Seq<char>) -> Seq<char> {
    "Commands:\n"@ + listing_lines(cmds, prefix) + details_hint(prefix)
}

/// The help of a group: its title, its children, and the hint.
pub open spec fn group_help(c: Command, prefix: Seq<char>) -> Seq<char> {
    let sub = prefix + c.name@ + " "@;
    title_line(c, prefix) + "\nSubcommands:\n"@ + listing_lines(c.commands@, sub) + details_hint(
        sub,
    )
}

/// `<name>`, or `<name...>` for a greedy parameter.
pub open spec fn placeholder(name: Seq<char>, greedy: bool) -> Seq<char> {
    "<"@ + name + if greedy {
        "...>"@
    } else {
        ">"@
    }
}

/// ` (default: d)` when there is a default.
pub open spec fn default_suffix(d: Option<String>) -> Seq<char> {
    match d {
        Some(v) => " (default: "@ + v@ + ")"@,
        None => Seq::empty(),
    }
}

pub open spec fn arg_line(a: Arg) -> Seq<char> {
    "  "@ + placeholder(a.name@, a.greedy) + help_suffix(a.help@) + default_suffix(a.default)
        + "\n"@
}

pub open spec fn arg_lines(args: Seq<Arg>) -> Seq<char>
    decreases args.len(),
{
    if args.len() == 0 {
        Seq::empty()
    } else {
        arg_lines(args.drop_last()) + arg_line(args.last())
    }
}

/// `-s, ` when the flag has a short name.
pub open spec fn short_part(f: Flag) -> Seq<char> {
    match f.short {
        Some(s) => s@ + ", "@,
        None => Seq::empty(),
    }
}

/// ` <arg>` when the flag takes a value.
pub open spec fn value_part(f: Flag) -> Seq<char> {
    match f.arg {
        Some(a) => " "@ + placeholder(a@, f.greedy),
        None => Seq::empty(),
    }
}

/// ` - help` when the flag has a help text, even an empty one.
pub open spec fn flag_help_part(f: Flag) -> Seq<char> {
    match f.help {
        Some(h) => " - "@ + h@,
        None => Seq::empty(),
    }
}

pub open spec fn required_part(f: Flag) -> Seq<char> {
    if f.required {
        " (required)"@
    } else {
        Seq::empty()
    }
}

pub open spec fn flag_line(f: Flag) -> Seq<char> {
    "  "@ + short_part(f) + f.long@ + value_part(f) + flag_help_part(f) + required_part(f)
        + default_suffix(f.default) + "\n"@
}

pub open spec fn flag_lines(flags: Seq<Flag>) -> Seq<char>
    decreases flags.len(),
{
    if flags.len() == 0 {
        Seq::empty()
    } else {
        flag_lines(flags.drop_last()) + flag_line(flags.last())
    }
}

/// The help of a leaf: its title, then its arguments and its flags.
pub open spec fn command_help(c: Command, prefix: Seq<char>) -> Seq<char> {
    title_line(c, prefix) + if c.args@.len() > 0 {
        "\nArgs:\n"@ + arg_lines(c.args@)
    } else {
        Seq::empty()
    } + if c.flags@.len() > 0 {
        "\nFlags:\n"@ + flag_lines(c.flags@)
    } else {
        Seq::empty()
    }
}

fn push_help_suffix(out: &mut String, help: &str)
    ensures
        final(out)@ == old(out)@ + help_suffix(help@),
{
    if !help.is_empty() {
        out.append(" - ");
        out.append(help);
    }
    assert(final(out)@ =~= old(out)@ + help_suffix(help@));
}

fn push_title_line(out: &mut String, c: &Command, prefix: &str)
    ensures
        final(out)@ == old(out)@ + title_line(*c, prefix@),
{
    out.append(prefix);
    out.append(c.name.as_str());
    push_help_suffix(out, c.help.as_str());
    out.append("\n");
    assert(final(out)@ =~= old(out)@ + title_line(*c, prefix@));
}

fn push_listing_lines(out: &mut String, cmds: &Vec<Command>, prefix: &str)
    ensures
        final(out)@ == old(out)@ + listing_lines(cmds@, prefix@),
{
    let ghost start = out@;
    let mut i: usize = 0;
    assert(cmds@.take(0) =~= Seq::<Command>::empty());
    while i < cmds.len()
        invariant
            i <= cmds@.len(),
            out@ == start + listing_lines(cmds@.take(i as int), prefix@),
        decreases cmds@.len() - i,
    {
        out.append("  ");
        push_title_line(out, &cmds[i], prefix);
        assert(cmds@.take(i + 1).drop_last() =~= cmds@.take(i as int));
        assert(out@ =~= start + listing_lines(cmds@.take(i + 1), prefix@));
        i = i + 1;
    }
    assert(cmds@.take(i as int) =~= cmds@);
}

fn push_details_hint(out: &mut String, prefix: &str)
    ensures
        final(out)@ == old(out)@ + details_hint(prefix@),
{
    out.append("\nSend ");
    out.append(prefix);
    out.append("<command> --help for details.");
    assert(final(out)@ =~= old(out)@ + details_hint(prefix@));
}

/// The listing of `commands`, each name behind `prefix`.
pub fn format_help_listing(commands: &Vec<Command>, prefix: &str) -> (r: String)
    ensures
        r@ == help_listing(commands@, prefix@),
{
    let mut out = "Commands:\n".to_owned();
    push_listing_lines(&mut out, commands, prefix);
    push_details_hint(&mut out, prefix);
    assert(out@ =~= help_listing(commands@, prefix@));
    out
}

/// The help of the group `cmd`, reached through `prefix`.
pub fn format_group_help(cmd: &Command, prefix: &str) -> (r: String)
    ensures
        r@ == group_help(*cmd, prefix@),
{
    let mut out = String::new();
    push_title_line(&mut out, cmd, prefix);
    let sub = joined(prefix, cmd.name.as_str());
    let sub = joined(sub.as_str(), " ");
    out.append("\nSubcommands:\n");
    push_listing_lines(&mut out, &cmd.commands, sub.as_str());
    push_details_hint(&mut out, sub.as_str());
    assert(out@ =~= group_help(*cmd, prefix@));
    out
}

fn push_placeholder(out: &mut String, name: &str, greedy: bool)
    ensures
        final(out)@ == old(out)@ + placeholder(name@, greedy),
{
    out.append("<");
    out.append(name);
    if greedy {
        out.append("...>");
    } else {
        out.append(">");
    }
    assert(final(out)@ =~= old(out)@ + placeholder(name@, greedy));
}

fn push_default_suffix(out: &mut String, d: &Option<String>)
    ensures
        final(out)@ == old(out)@ + default_suffix(*d),
{
    if let Some(v) = d {
        out.append(" (default: ");
        out.append(v.as_str());
        out.append(")");
    }
    assert(final(out)@ =~= old(out)@ + default_suffix(*d));
}

fn push_arg_line(out: &mut String, a: &Arg)
    ensures
        final(out)@ == old(out)@ + arg_line(*a),
{
    out.append("  ");
    push_placeholder(out, a.name.as_str(), a.greedy);
    push_help_suffix(out, a.help.as_str());
    push_default_suffix(out, &a.default);
    out.append("\n");
    assert(final(out)@ =~= old(out)@ + arg_line(*a));
}

fn push_flag_head(out: &mut String, f: &Flag)
    ensures
        final(out)@ == old(out)@ + "  "@ + short_part(*f) + f.long@ + value_part(*f),
{
    let ghost start = out@;
    out.append("  ");
    if let Some(s) = &f.short {
        out.append(s.as_str());
        out.append(", ");
    }
    assert(out@ =~= start + "  "@ + short_part(*f));
    out.append(f.long.as_str());
    let ghost mid = out@;
    if let Some(a) = &f.arg {
        out.append(" ");
        push_placeholder(out, a.as_str(), f.greedy);
    }
    assert(out@ =~= mid + value_part(*f));
}

fn push_flag_tail(out: &mut String, f: &Flag)
    ensures
        final(out)@ == old(out)@ + flag_help_part(*f) + required_part(*f) + default_suffix(
            f.default,
        ) + "\n"@,
{
    let ghost start = out@;
    if let Some(h) = &f.help {
        out.append(" - ");
        out.append(h.as_str());
    }
    assert(out@ =~= start + flag_help_part(*f));
    let ghost mid = out@;
    if f.required {
        out.append(" (required)");
    }
    assert(out@ =~= mid + required_part(*f));
    let ghost mid2 = out@;
    push_default_suffix(out, &f.default);
    out.append("\n");
    assert(out@ =~= mid2 + default_suffix(f.default) + "\n"@);
}

fn push_flag_line(out: &mut String, f: &Flag)
    ensures
        final(out)@ == old(out)@ + flag_line(*f),
{
    let ghost start = out@;
    push_flag_head(out, f);
    push_flag_tail(out, f);
    assert(out@ =~= start + flag_line(*f));
}

/// The help of the leaf `cmd`, reached through `prefix`.
pub fn format_command_help(cmd: &Command, prefix: &str) -> (r: String)
    ensures
        r@ == command_help(*cmd, prefix@),
{
    let mut out = String::new();
    push_title_line(&mut out, cmd, prefix);
    let ghost head = out@;
    if cmd.args.len() > 0 {
        out.append("\nArgs:\n");
        let ghost start = out@;
        let mut i: usize = 0;
        assert(cmd.args@.take(0) =~= Seq::<Arg>::empty());
        while i < cmd.args.len()
            invariant
                i <= cmd.args@.len(),
                out@ == start + arg_lines(cmd.args@.take(i as int)),
            decreases cmd.args@.len() - i,
        {
            push_arg_line(&mut out, &cmd.args[i]);
            assert(cmd.args@.take(i + 1).drop_last() =~= cmd.args@.take(i as int));
            assert(out@ =~= start + arg_lines(cmd.args@.take(i + 1)));
            i = i + 1;
        }
        assert(cmd.args@.take(i as int) =~= cmd.args@);
    }
    let ghost mid = out@;
    assert(mid =~= head + if cmd.args@.len() > 0 {
        "\nArgs:\n"@ + arg_lines(cmd.args@)
    } else {
        Seq::empty()
    });
    if cmd.flags.len() > 0 {
        out.append("\nFlags:\n");
        let ghost start = out@;
        let mut i: usize = 0;
        assert(cmd.flags@.take(0) =~= Seq::<Flag>::empty());
        while i < cmd.flags.len()
            invariant
                i <= cmd.flags@.len(),
                out@ == start + flag_lines(cmd.flags@.take(i as int)),
            decreases cmd.flags@.len() - i,
        {
            push_flag_line(&mut out, &cmd.flags[i]);
            assert(cmd.flags@.take(i + 1).drop_last() =~= cmd.flags@.take(i as int));
            assert(out@ =~= start + flag_lines(cmd.flags@.take(i + 1)));
            i = i + 1;
        }
        assert(cmd.flags@.take(i as int) =~= cmd.flags@);
    }
    assert(out@ =~= command_help(*cmd, prefix@));
    out
}

/// `s` with each hyphen written as an underscore.
pub open spec fn underscored(s: Seq<char>) -> Seq<char> {
    s.map_values(|c: char| if c == '-' { '_' } else { c })
}

/// `s` without its leading hyphens.
pub open spec fn strip_dashes(s: Seq<char>) -> Seq<char>
    decreases s.len(),
{
    if s.len() > 0 && s[0] == '-' {
        strip_dashes(s.drop_first())
    } else {
        s
    }
}

/// The variable that an argument binds.
pub open spec fn arg_key(a: Arg) -> Seq<char> {
    underscored(a.name@)
}

/// The variable that a flag binds: its value name, or for a toggle its long
/// name without dashes.
pub open spec fn flag_key(f: Flag) -> Seq<char> {
    match f.arg {
        Some(a) => a@,
        None => underscored(strip_dashes(f.long@)),
    }
}

/// `t` names the flag `f`, by its long or its short name.
pub open spec fn flag_named(f: Flag, t: Seq<char>) -> bool {
    f.long@ == t || (f.short is Some && f.short->0@ == t)
}

/// The first of `flags[k..]` that `t` names.
pub open spec fn find_flag_from(flags: Seq<Flag>, t: Seq<char>, k: int) -> Option<int>
    decreases flags.len() - k,
{
    if k < 0 || k >= flags.len() {
        None
    } else if flag_named(flags[k], t) {
        Some(k)
    } else {
        find_flag_from(flags, t, k + 1)
    }
}

/// Binding of the tokens `toks[i..]`, with `pos` positional arguments filled
/// so far and the variables `env`; gives the number of filled positional
/// arguments and the variables.
pub open spec fn bind_tokens(
    toks: Seq<Seq<char>>,
    c: Command,
    i: int,
    pos: int,
    env: Map<Seq<char>, Seq<char>>,
) -> Result<(int, Map<Seq<char>, Seq<char>>), Failure>
    decreases toks.len() - i,
{
    if i < 0 || i >= toks.len() {
        Ok((pos, env))
    } else {
        let t = toks[i];
        if t.len() > 0 && t[0] == '-' {
            match find_flag_from(c.flags@, t, 0) {
                None => Err(Failure::UnknownFlag(t)),
                Some(k) => {
                    let f = c.flags@[k];
                    match f.arg {
                        Some(a) => if i + 1 >= toks.len() {
                            Err(Failure::MissingFlagValue(f.long@))
                        } else if f.greedy {
                            Ok((pos, env.insert(a@, join_words(toks.skip(i + 1)))))
                        } else {
                            bind_tokens(toks, c, i + 2, pos, env.insert(a@, toks[i + 1]))
                        },
                        None => bind_tokens(toks, c, i + 1, pos, env.insert(flag_key(f), "true"@)),
                    }
                },
            }
        } else if pos < 0 || pos >= c.args@.len() {
            Err(Failure::TooManyArgs(c.args@.len()))
        } else {
            let a = c.args@[pos];
            if a.greedy {
                Ok((c.args@.len() as int, env.insert(arg_key(a), join_words(toks.skip(i)))))
            } else {
                bind_tokens(toks, c, i + 1, pos + 1, env.insert(arg_key(a), t))
            }
        }
    }
}

/// The defaults of the unfilled arguments `args[k..]`, or the first of them
/// that has none.
pub open spec fn fill_args(args: Seq<Arg>, k: int, env: Map<Seq<char>, Seq<char>>) -> Result<
    Map<Seq<char>, Seq<char>>,
    Failure,
>
    decreases args.len() - k,
{
    if k < 0 || k >= args.len() {
        Ok(env)
    } else {
        match args[k].default {
            Some(d) => fill_args(args, k + 1, env.insert(arg_key(args[k]), d@)),
            None => Err(Failure::MissingRequiredArg(args[k].name@)),
        }
    }
}

/// The defaults of the unbound flags among `flags[k..]`, or the first unbound
/// required flag without a default.
pub open spec fn fill_flags(flags: Seq<Flag>, k: int, env: Map<Seq<char>, Seq<char>>) -> Result<
    Map<Seq<char>, Seq<char>>,
    Failure,
>
    decreases flags.len() - k,
{
    if k < 0 || k >= flags.len() {
        Ok(env)
    } else {
        let f = flags[k];
        if env.contains_key(flag_key(f)) {
            fill_flags(flags, k + 1, env)
        } else {
            match f.default {
                Some(d) => fill_flags(flags, k + 1, env.insert(flag_key(f), d@)),
                None => if f.required {
                    Err(Failure::MissingRequiredFlag(f.long@))
                } else {
                    fill_flags(flags, k + 1, env)
                },
            }
        }
    }
}

/// The variables that the tokens `toks` bind for the leaf `c`.
pub open spec fn bind_all(toks: Seq<Seq<char>>, c: Command) -> Result<
    Map<Seq<char>, Seq<char>>,
    Failure,
> {
    match bind_tokens(toks, c, 0, 0, Map::empty()) {
        Err(f) => Err(f),
        Ok((pos, env)) => match fill_args(c.args@, pos, env) {
            Err(f) => Err(f),
            Ok(env2) => fill_flags(c.flags@, 0, env2),
        },
    }
}

pub open spec fn bound(r: Result<Bindings, AliasError>) -> Result<
    Map<Seq<char>, Seq<char>>,
    Failure,
> {
    match r {
        Ok(b) => Ok(b@),
        Err(e) => Err(e@),
    }
}

/// `s` with each hyphen written as an underscore.
pub fn underscore_hyphens(s: &str) -> (r: String)
    ensures
        r@ == underscored(s@),
{
    let v = chars_of(s);
    let mut r = String::new();
    let mut i: usize = 0;
    while i < v.len()
        invariant
            i <= v@.len(),
            v@ == s@,
            r@ == underscored(v@.take(i as int)),
        decreases v@.len() - i,
    {
        if v[i] == '-' {
            push_char(&mut r, '_');
        } else {
            push_char(&mut r, v[i]);
        }
        i = i + 1;
        assert(r@ =~= underscored(v@.take(i as int)));
    }
    assert(v@.take(i as int) =~= v@);
    r
}

proof fn lemma_strip_dashes(s: Seq<char>, i: int)
    requires
        0 <= i <= s.len(),
        forall|k: int| 0 <= k < i ==> s[k] == '-',
        i == s.len() || s[i] != '-',
    ensures
        strip_dashes(s) == s.skip(i),
    decreases i,
{
    if i > 0 {
        assert(s.drop_first().skip(i - 1) =~= s.skip(i));
        lemma_strip_dashes(s.drop_first(), i - 1);
    } else {
        assert(s.skip(0) =~= s);
    }
}

/// The variable that the flag `f` binds.
pub fn flag_var(f: &Flag) -> (r: String)
    ensures
        r@ == flag_key(*f),
{
    match &f.arg {
        Some(a) => a.clone(),
        None => {
            let v = chars_of(f.long.as_str());
            let mut i: usize = 0;
            while i < v.len() && v[i] == '-'
                invariant
                    i <= v@.len(),
                    forall|k: int| 0 <= k < i ==> v@[k] == '-',
                decreases v@.len() - i,
            {
                i = i + 1;
            }
            proof {
                lemma_strip_dashes(v@, i as int);
            }
            let rest = string_of(&v, i, v.len());
            assert(rest@ =~= v@.skip(i as int));
            underscore_hyphens(rest.as_str())
        },
    }
}

/// The first flag of `flags` that `token` names.
pub fn find_flag<'a>(token: &str, flags: &'a Vec<Flag>) -> (r: Option<&'a Flag>)
    ensures
        match find_flag_from(flags@, token@, 0) {
            Some(k) => r == Some(&flags@[k]),
            None => r is None,
        },
{
    let mut k: usize = 0;
    while k < flags.len()
        invariant
            k <= flags@.len(),
            find_flag_from(flags@, token@, 0) == find_flag_from(flags@, token@, k as int),
        decreases flags@.len() - k,
    {
        let f = &flags[k];
        let named = same_text(f.long.as_str(), token) || match &f.short {
            Some(s) => same_text(s.as_str(), token),
            None => false,
        };
        if named {
            return Some(f);
        }
        k = k + 1;
    }
    None
}

/// Binds `tokens` to the arguments and flags of the leaf `cmd`, then fills in
/// defaults.
pub fn parse_tokens(tokens: &Vec<String>, cmd: &Command) -> (r: Result<Bindings, AliasError>)
    ensures
        bound(r) == bind_all(views(tokens@), *cmd),
{
    let ghost toks = views(tokens@);
    let n = tokens.len();
    let mut vars = Bindings::new();
    let mut positional: usize = 0;
    let mut i: usize = 0;
    while i < n
        invariant
            n == tokens@.len() == toks.len(),
            toks == views(tokens@),
            i <= n,
            positional <= cmd.args@.len(),
            bind_tokens(toks, *cmd, 0, 0, Map::empty()) == bind_tokens(
                toks,
                *cmd,
                i as int,
                positional as int,
                vars@,
            ),
        decreases n - i,
    {
        let token = &tokens[i];
        assert(toks[i as int] == token@);
        let starts_dash = !token.as_str().is_empty() && token.as_str().get_char(0) == '-';
        if starts_dash {
            match find_flag(token.as_str(), &cmd.flags) {
                None => {
                    return Err(AliasError::UnknownFlag(token.clone()));
                },
                Some(flag) => {
                    match &flag.arg {
                        Some(arg_name) => {
                            if i + 1 >= n {
                                return Err(AliasError::MissingFlagValue(flag.long.clone()));
                            }
                            if flag.greedy {
                                let value = join_from(tokens, i + 1);
                                assert(views(tokens@.skip(i + 1)) =~= toks.skip(
                                    i + 1,
                                ));
                                vars.insert(arg_name.clone(), value);
                                i = n;
                            } else {
                                assert(toks[i + 1] == tokens@[i + 1]@);
                                vars.insert(arg_name.clone(), tokens[i + 1].clone());
                                i = i + 2;
                            }
                        },
                        None => {
                            let var_name = flag_var(flag);
                            vars.insert(var_name, "true".to_owned());
                            i = i + 1;
                        },
                    }
                },
            }
        } else {
            if positional >= cmd.args.len() {
                return Err(AliasError::TooManyArgs { expected: cmd.args.len() });
            }
            let arg = &cmd.args[positional];
            let var_name = underscore_hyphens(arg.name.as_str());
            if arg.greedy {
                let value = join_from(tokens, i);
                assert(views(tokens@.skip(i as int)) =~= toks.skip(i as int));
                vars.insert(var_name, value);
                positional = cmd.args.len();
                i = n;
            } else {
                vars.insert(var_name, token.clone());
                positional = positional + 1;
                i = i + 1;
            }
        }
    }
    assert(bind_tokens(toks, *cmd, i as int, positional as int, vars@) == Ok::<
        (int, Map<Seq<char>, Seq<char>>),
        Failure,
    >((positional as int, vars@)));
    let mut k: usize = positional;
    while k < cmd.args.len()
        invariant
            positional <= k <= cmd.args@.len(),
            toks == views(tokens@),
            bind_all(toks, *cmd) == match fill_args(cmd.args@, k as int, vars@) {
                Err(f) => Err(f),
                Ok(env2) => fill_flags(cmd.flags@, 0, env2),
            },
        decreases cmd.args@.len() - k,
    {
        let arg = &cmd.args[k];
        match &arg.default {
            Some(d) => {
                let var_name = underscore_hyphens(arg.name.as_str());
                vars.insert(var_name, d.clone());
            },
            None => {
                assert(fill_args(cmd.args@, k as int, vars@) == Err::<
                    Map<Seq<char>, Seq<char>>,
                    Failure,
                >(Failure::MissingRequiredArg(arg.name@)));
                return Err(AliasError::MissingRequiredArg(arg.name.clone()));
            },
        }
        k = k + 1;
    }
    let mut k: usize = 0;
    while k < cmd.flags.len()
        invariant
            k <= cmd.flags@.len(),
            toks == views(tokens@),
            bind_all(toks, *cmd) == fill_flags(cmd.flags@, k as int, vars@),
        decreases cmd.flags@.len() - k,
    {
        let flag = &cmd.flags[k];
        let var_name = flag_var(flag);
        if !vars.contains_key(var_name.as_str()) {
            match &flag.default {
                Some(d) => {
                    vars.insert(var_name, d.clone());
                },
                None => {
                    if flag.required {
                        assert(fill_flags(cmd.flags@, k as int, vars@) == Err::<
                            Map<Seq<char>, Seq<char>>,
                            Failure,
                        >(Failure::MissingRequiredFlag(flag.long@)));
                        return Err(AliasError::MissingRequiredFlag(flag.long.clone()));
                    }
                },
            }
        }
        k = k + 1;
    }
    Ok(vars)
}

/// `input` names the command `name`: exactly, or followed by a space.
pub open spec fn name_matches(input: Seq<char>, name: Seq<char>) -> bool {
    input == name || (name.len() < input.len() && input.take(name.len() as int) == name
        && input[name.len() as int] == ' ')
}

/// Among `cmds[..n]`, `cmds[b]` is a command that `input` names, with the
/// longest name, and the first of those.
pub open spec fn is_best_among(input: Seq<char>, cmds: Seq<Command>, b: int, n: int) -> bool {
    &&& 0 <= b < n <= cmds.len()
    &&& name_matches(input, cmds[b].name@)
    &&& forall|j: int|
        0 <= j < n && name_matches(input, #[trigger] cmds[j].name@) ==> cmds[j].name@.len()
            < cmds[b].name@.len() || (cmds[j].name@.len() == cmds[b].name@.len() && b <= j)
}

/// `cmds[b]` is the command that `input` selects: the longest name that
/// matches, the first of equal ones.
pub open spec fn is_best_match(input: Seq<char>, cmds: Seq<Command>, b: int) -> bool {
    is_best_among(input, cmds, b, cmds.len() as int)
}

/// What follows the name `name` in `input`, trimmed.
pub open spec fn remainder(input: Seq<char>, name: Seq<char>) -> Seq<char> {
    if input == name {
        Seq::empty()
    } else {
        trim(input.skip(name.len() as int))
    }
}

/// The word that an unknown-command error reports.
pub open spec fn unknown_word(input: Seq<char>) -> Seq<char> {
    if words(input).len() > 0 {
        words(input)[0]
    } else {
        input
    }
}

pub open spec fn is_help_token(t: Seq<char>) -> bool {
    t == "-h"@ || t == "--help"@
}

/// The resolution of `input` against the sibling commands `cmds`, whose
/// names are shown behind `prefix`.
pub open spec fn resolve_in(input: Seq<char>, cmds: Seq<Command>, prefix: Seq<char>) -> Result<
    Outcome,
    Failure,
>
    decreases cmds,
{
    if exists|b: int| is_best_match(input, cmds, b) {
        let b = choose|b: int| is_best_match(input, cmds, b);
        let c = cmds[b];
        let rest = remainder(input, c.name@);
        if c.commands@.len() > 0 {
            if rest.len() == 0 || rest == "--help"@ || rest == "-h"@ {
                Ok(Outcome::Help(group_help(c, prefix)))
            } else {
                resolve_in(rest, c.commands@, prefix + c.name@ + " "@)
            }
        } else {
            let toks = words(rest);
            if exists|k: int| 0 <= k < toks.len() && is_help_token(#[trigger] toks[k]) {
                Ok(Outcome::Help(command_help(c, prefix)))
            } else {
                match bind_all(toks, c) {
                    Ok(env) => Ok(Outcome::Run(c.command@, env)),
                    Err(f) => Err(f),
                }
            }
        }
    } else {
        Err(Failure::UnknownAlias(prefix + unknown_word(input)))
    }
}

/// The resolution of a whole message: its first character is the trigger,
/// and `help` after it lists the commands.
pub open spec fn resolve_message(message: Seq<char>, cmds: Seq<Command>) -> Result<
    Outcome,
    Failure,
> {
    let rest = message.drop_first();
    if rest == "help"@ {
        Ok(Outcome::Help(help_listing(cmds, "!"@)))
    } else {
        resolve_in(rest, cmds, "!"@)
    }
}

fn name_matches_chars(v: &Vec<char>, nv: &Vec<char>) -> (r: bool)
    ensures
        r == name_matches(v@, nv@),
{
    if nv.len() > v.len() {
        return false;
    }
    let mut k: usize = 0;
    while k < nv.len()
        invariant
            nv@.len() <= v@.len(),
            k <= nv@.len(),
            v@.take(k as int) == nv@.take(k as int),
        decreases nv@.len() - k,
    {
        if v[k] != nv[k] {
            assert(v@.take(nv@.len() as int)[k as int] != nv@[k as int]);
            assert(v@ != nv@ ==> v@.take(nv@.len() as int) != nv@);
            return false;
        }
        assert(v@.take(k + 1) =~= v@.take(k as int).push(v@[k as int]));
        assert(nv@.take(k + 1) =~= nv@.take(k as int).push(nv@[k as int]));
        k = k + 1;
    }
    assert(nv@.take(nv@.len() as int) =~= nv@);
    if v.len() == nv.len() {
        assert(v@.take(v@.len() as int) =~= v@);
        true
    } else {
        v[nv.len()] == ' '
    }
}

/// Whether one of `tokens` asks for help.
fn has_help_token(tokens: &Vec<String>) -> (r: bool)
    ensures
        r == exists|k: int|
            0 <= k < tokens@.len() && is_help_token(#[trigger] views(tokens@)[k]),
{
    let ghost toks = views(tokens@);
    let mut k: usize = 0;
    while k < tokens.len()
        invariant
            k <= tokens@.len(),
            toks == views(tokens@),
            forall|j: int| 0 <= j < k ==> !is_help_token(#[trigger] toks[j]),
        decreases tokens@.len() - k,
    {
        if same_text(tokens[k].as_str(), "-h") || same_text(tokens[k].as_str(), "--help") {
            assert(is_help_token(toks[k as int]));
            return true;
        }
        k = k + 1;
    }
    false
}

/// Resolves `input` against the sibling commands `commands`, whose names are
/// shown behind `prefix`.
pub fn resolve_from(input: &str, commands: &Vec<Command>, prefix: &str) -> (r: Result<
    AliasResult,
    AliasError,
>)
    ensures
        resolution(r) == resolve_in(input@, commands@, prefix@),
    decreases commands,
{
    let v = chars_of(input);
    let mut best: Option<usize> = None;
    let mut best_len: usize = 0;
    let mut i: usize = 0;
    while i < commands.len()
        invariant
            i <= commands@.len(),
            v@ == input@,
            match best {
                Some(b) => best_len == commands@[b as int].name@.len() && is_best_among(
                    v@,
                    commands@,
                    b as int,
                    i as int,
                ),
                None => forall|j: int|
                    0 <= j < i ==> !name_matches(v@, #[trigger] commands@[j].name@),
            },
        decreases commands@.len() - i,
    {
        let nv = chars_of(commands[i].name.as_str());
        if name_matches_chars(&v, &nv) {
            if best.is_none() || nv.len() > best_len {
                best = Some(i);
                best_len = nv.len();
            }
        }
        i = i + 1;
    }
    match best {
        None => {
            assert(!exists|b: int| is_best_match(input@, commands@, b));
            let ws = split_words(input);
            let name = if ws.len() > 0 {
                assert(views(ws@)[0] == ws@[0]@);
                joined(prefix, ws[0].as_str())
            } else {
                joined(prefix, input)
            };
            Err(AliasError::UnknownAlias(name))
        },
        Some(b) => {
            proof {
                assert(is_best_match(input@, commands@, b as int));
                let b2 = choose|b2: int| is_best_match(input@, commands@, b2);
                assert(is_best_match(input@, commands@, b2));
                assert(b2 == b as int);
            }
            let cmd = &commands[b];
            let nv = chars_of(cmd.name.as_str());
            let rest = if v.len() == nv.len() {
                assert(v@ =~= nv@.take(nv@.len() as int));
                String::new()
            } else {
                trimmed_tail(&v, nv.len())
            };
            assert(rest@ == remainder(input@, cmd.name@));
            if cmd.commands.len() > 0 {
                if rest.as_str().is_empty() || same_text(rest.as_str(), "--help") || same_text(
                    rest.as_str(),
                    "-h",
                ) {
                    return Ok(AliasResult::HelpText(format_group_help(cmd, prefix)));
                }
                let sub = joined(prefix, cmd.name.as_str());
                let sub = joined(sub.as_str(), " ");
                return resolve_from(rest.as_str(), &cmd.commands, sub.as_str());
            }
            let tokens = split_words(rest.as_str());
            if has_help_token(&tokens) {
                return Ok(AliasResult::HelpText(format_command_help(cmd, prefix)));
            }
            match parse_tokens(&tokens, cmd) {
                Ok(env) => Ok(AliasResult::Command { command: cmd.command.clone(), env }),
                Err(e) => Err(e),
            }
        },
    }
}

/// Resolves a message whose first character is the trigger against the
/// top-level commands.
pub fn resolve_alias(message: &str, commands: &Vec<Command>) -> (r: Result<AliasResult, AliasError>)
    requires
        message@.len() > 0,
    ensures
        resolution(r) == resolve_message(message@, commands@),
{
    let v = chars_of(message);
    let rest = string_of(&v, 1, v.len());
    assert(rest@ =~= message@.drop_first());
    if same_text(rest.as_str(), "help") {
        return Ok(AliasResult::HelpText(format_help_listing(commands, "!")));
    }
    resolve_from(rest.as_str(), commands, "!")
}

/// At most one command is the one that an input selects.
pub proof fn lemma_best_match_unique(input: Seq<char>, cmds: Seq<Command>, b: int)
    requires
        is_best_match(input, cmds, b),
    ensures
        (choose|b2: int| is_best_match(input, cmds, b2)) == b,
{
    let b2 = choose|b2: int| is_best_match(input, cmds, b2);
    assert(is_best_match(input, cmds, b2));
    assert(name_matches(input, cmds[b2].name@));
    assert(name_matches(input, cmds[b].name@));
}

/// When no sibling's name matches the input, exactly or followed by a space,
/// resolution fails with an unknown command: the shown prefix and the first
/// word of the input.
pub proof fn lemma_unknown_alias(input: Seq<char>, cmds: Seq<Command>, prefix: Seq<char>)
    requires
        forall|j: int| 0 <= j < cmds.len() ==> !name_matches(input, #[trigger] cmds[j].name@),
    ensures
        resolve_in(input, cmds, prefix) == Err::<Outcome, Failure>(
            Failure::UnknownAlias(prefix + unknown_word(input)),
        ),
{
    assert(!exists|b: int| is_best_match(input, cmds, b));
}

/// Inside a group that the input selects, resolution goes on with the rest of
/// the input among the children, behind the group's name.
pub proof fn lemma_group_descent(input: Seq<char>, cmds: Seq<Command>, prefix: Seq<char>, b: int)
    requires
        is_best_match(input, cmds, b),
        cmds[b].commands@.len() > 0,
        remainder(input, cmds[b].name@).len() > 0,
        !is_help_token(remainder(input, cmds[b].name@)),
    ensures
        resolve_in(input, cmds, prefix) == resolve_in(
            remainder(input, cmds[b].name@),
            cmds[b].commands@,
            prefix + cmds[b].name@ + " "@,
        ),
{
    lemma_best_match_unique(input, cmds, b);
}

/// `-h` or `--help` among the words after a selected leaf gives its help,
/// whatever the other words are and whatever arguments are missing.
pub proof fn lemma_help_wins(input: Seq<char>, cmds: Seq<Command>, prefix: Seq<char>, b: int, k: int)
    requires
        is_best_match(input, cmds, b),
        cmds[b].commands@.len() == 0,
        0 <= k < words(remainder(input, cmds[b].name@)).len(),
        is_help_token(words(remainder(input, cmds[b].name@))[k]),
    ensures
        resolve_in(input, cmds, prefix) == Ok::<Outcome, Failure>(
            Outcome::Help(command_help(cmds[b], prefix)),
        ),
{
    lemma_best_match_unique(input, cmds, b);
}

/// A greedy argument takes every remaining token, joined by spaces, even
/// tokens that look like flags, and binding stops there.
pub proof fn lemma_greedy_arg_takes_rest(
    toks: Seq<Seq<char>>,
    c: Command,
    i: int,
    pos: int,
    env: Map<Seq<char>, Seq<char>>,
)
    requires
        0 <= i < toks.len(),
        !(toks[i].len() > 0 && toks[i][0] == '-'),
        0 <= pos < c.args@.len(),
        c.args@[pos].greedy,
    ensures
        bind_tokens(toks, c, i, pos, env) == Ok::<(int, Map<Seq<char>, Seq<char>>), Failure>(
            (c.args@.len() as int, env.insert(arg_key(c.args@[pos]), join_words(toks.skip(i)))),
        ),
{
}

/// A greedy flag with a value takes every token after it, joined by spaces,
/// even tokens that look like flags, and binding stops there.
pub proof fn lemma_greedy_flag_takes_rest(
    toks: Seq<Seq<char>>,
    c: Command,
    i: int,
    pos: int,
    env: Map<Seq<char>, Seq<char>>,
    k: int,
)
    requires
        0 <= i < toks.len() - 1,
        toks[i].len() > 0 && toks[i][0] == '-',
        find_flag_from(c.flags@, toks[i], 0) == Some(k),
        c.flags@[k].arg is Some,
        c.flags@[k].greedy,
    ensures
        bind_tokens(toks, c, i, pos, env) == Ok::<(int, Map<Seq<char>, Seq<char>>), Failure>(
            (pos, env.insert(c.flags@[k].arg->0@, join_words(toks.skip(i + 1)))),
        ),
{
}

/// Filling arguments only adds the keys of the arguments filled.
proof fn lemma_fill_args_keeps(args: Seq<Arg>, k: int, env: Map<Seq<char>, Seq<char>>, x: Seq<char>)
    requires
        0 <= k,
        forall|j: int| k <= j < args.len() ==> (#[trigger] args[j]).default is Some,
        forall|j: int| k <= j < args.len() ==> arg_key(#[trigger] args[j]) != x,
    ensures
        fill_args(args, k, env) is Ok,
        fill_args(args, k, env)->Ok_0.contains_key(x) == env.contains_key(x),
        env.contains_key(x) ==> fill_args(args, k, env)->Ok_0[x] == env[x],
    decreases args.len() - k,
{
    if k < args.len() {
        lemma_fill_args_keeps(args, k + 1, env.insert(arg_key(args[k]), args[k].default->0@), x);
    }
}

/// Filling arguments binds each default under its argument's key, when the
/// keys differ.
proof fn lemma_fill_args_defaults(args: Seq<Arg>, k: int, env: Map<Seq<char>, Seq<char>>)
    requires
        0 <= k,
        forall|j: int| k <= j < args.len() ==> (#[trigger] args[j]).default is Some,
        forall|j: int, m: int|
            k <= j < m < args.len() ==> arg_key(#[trigger] args[j]) != arg_key(#[trigger] args[m]),
    ensures
        fill_args(args, k, env) is Ok,
        forall|j: int|
            k <= j < args.len() ==> fill_args(args, k, env)->Ok_0.contains_key(
                arg_key(#[trigger] args[j]),
            ) && fill_args(args, k, env)->Ok_0[arg_key(args[j])] == args[j].default->0@,
    decreases args.len() - k,
{
    if k < args.len() {
        let env2 = env.insert(arg_key(args[k]), args[k].default->0@);
        lemma_fill_args_defaults(args, k + 1, env2);
        lemma_fill_args_keeps(args, k + 1, env2, arg_key(args[k]));
    } else {
        lemma_fill_args_keeps(args, k, env, Seq::empty());
    }
}

/// Filling flags keeps every binding already made, and succeeds when no flag
/// is required without a default.
proof fn lemma_fill_flags_keeps(flags: Seq<Flag>, k: int, env: Map<Seq<char>, Seq<char>>)
    requires
        0 <= k,
        forall|j: int|
            k <= j < flags.len() ==> !((#[trigger] flags[j]).required && flags[j].default is None),
    ensures
        fill_flags(flags, k, env) is Ok,
        forall|x: Seq<char>|
            #[trigger] env.contains_key(x) ==> fill_flags(flags, k, env)->Ok_0.contains_key(x)
                && fill_flags(flags, k, env)->Ok_0[x] == env[x],
    decreases flags.len() - k,
{
    if k < flags.len() {
        let f = flags[k];
        if env.contains_key(flag_key(f)) {
            lemma_fill_flags_keeps(flags, k + 1, env);
        } else {
            match f.default {
                Some(d) => {
                    let env2 = env.insert(flag_key(f), d@);
                    lemma_fill_flags_keeps(flags, k + 1, env2);
                    assert forall|x: Seq<char>| #[trigger] env.contains_key(x) implies fill_flags(
                        flags,
                        k,
                        env,
                    )->Ok_0.contains_key(x) && fill_flags(flags, k, env)->Ok_0[x] == env[x] by {
                        assert(env2.contains_key(x));
                    }
                },
                None => {
                    lemma_fill_flags_keeps(flags, k + 1, env);
                },
            }
        }
    }
}

/// A leaf selected by its exact name, whose arguments all have defaults
/// under distinct keys and whose flags are none of them required without a
/// default, runs its template with every argument default bound under the
/// argument's key.
pub proof fn lemma_defaults_bound(input: Seq<char>, cmds: Seq<Command>, prefix: Seq<char>, b: int)
    requires
        is_best_match(input, cmds, b),
        input == cmds[b].name@,
        cmds[b].commands@.len() == 0,
        forall|j: int| 0 <= j < cmds[b].args@.len() ==> (#[trigger] cmds[b].args@[j]).default is Some,
        forall|j: int, m: int|
            0 <= j < m < cmds[b].args@.len() ==> arg_key(#[trigger] cmds[b].args@[j]) != arg_key(
                #[trigger] cmds[b].args@[m],
            ),
        forall|j: int|
            0 <= j < cmds[b].flags@.len() ==> !((#[trigger] cmds[b].flags@[j]).required
                && cmds[b].flags@[j].default is None),
    ensures
        resolve_in(input, cmds, prefix) is Ok,
        resolve_in(input, cmds, prefix)->Ok_0 is Run,
        resolve_in(input, cmds, prefix)->Ok_0->Run_0 == cmds[b].command@,
        forall|j: int|
            0 <= j < cmds[b].args@.len() ==> {
                let env = resolve_in(input, cmds, prefix)->Ok_0->Run_1;
                let a = #[trigger] cmds[b].args@[j];
                env.contains_key(arg_key(a)) && env[arg_key(a)] == a.default->0@
            },
{
    let c = cmds[b];
    lemma_best_match_unique(input, cmds, b);
    assert(remainder(input, c.name@) =~= Seq::<char>::empty());
    assert(words(Seq::<char>::empty()) =~= Seq::<Seq<char>>::empty());
    let toks = words(remainder(input, c.name@));
    assert(bind_tokens(toks, c, 0, 0, Map::empty()) == Ok::<
        (int, Map<Seq<char>, Seq<char>>),
        Failure,
    >((0, Map::empty())));
    lemma_fill_args_defaults(c.args@, 0, Map::empty());
    let env1 = fill_args(c.args@, 0, Map::empty())->Ok_0;
    lemma_fill_flags_keeps(c.flags@, 0, env1);
    assert forall|j: int| 0 <= j < c.args@.len() implies env1.contains_key(
        arg_key(#[trigger] c.args@[j]),
    ) by {}
}

/// The input that spells the names along `path` down from `cmds`, with one
/// space between them.
pub open spec fn dotted_name(cmds: Seq<Command>, path: Seq<int>) -> Seq<char>
    decreases path.len(),
{
    if path.len() == 0 || path[0] < 0 || path[0] >= cmds.len() {
        Seq::empty()
    } else if path.len() == 1 {
        cmds[path[0]].name@
    } else {
        cmds[path[0]].name@ + " "@ + dotted_name(cmds[path[0]].commands@, path.drop_first())
    }
}

/// The command at the end of `path`.
pub open spec fn node_at(cmds: Seq<Command>, path: Seq<int>) -> Command
    decreases path.len(),
{
    if path.len() <= 1 || path[0] < 0 || path[0] >= cmds.len() {
        cmds[path[0]]
    } else {
        node_at(cmds[path[0]].commands@, path.drop_first())
    }
}

/// Along `path`, each step is the command that the dotted name selects at
/// its level; each step but the last is a group, after whose name the rest of
/// the input is the dotted name below it; the last step is a leaf.
pub open spec fn path_selected(cmds: Seq<Command>, path: Seq<int>) -> bool
    decreases path.len(),
{
    &&& path.len() > 0
    &&& 0 <= path[0] < cmds.len()
    &&& is_best_match(dotted_name(cmds, path), cmds, path[0])
    &&& if path.len() == 1 {
        cmds[path[0]].commands@.len() == 0
    } else {
        let next = dotted_name(cmds[path[0]].commands@, path.drop_first());
        &&& cmds[path[0]].commands@.len() > 0
        &&& remainder(dotted_name(cmds, path), cmds[path[0]].name@) == next
        &&& next.len() > 0
        &&& !is_help_token(next)
        &&& path_selected(cmds[path[0]].commands@, path.drop_first())
    }
}

/// The input that spells a leaf's full dotted name, with no arguments,
/// resolves to the leaf's template with every argument default bound under
/// the argument's key, when the leaf's arguments all have defaults under
/// distinct keys and none of its flags is required without a default.
pub proof fn lemma_dotted_name_binds_defaults(cmds: Seq<Command>, path: Seq<int>, prefix: Seq<char>)
    requires
        path_selected(cmds, path),
        forall|j: int|
            0 <= j < node_at(cmds, path).args@.len() ==> (#[trigger] node_at(
                cmds,
                path,
            ).args@[j]).default is Some,
        forall|j: int, m: int|
            0 <= j < m < node_at(cmds, path).args@.len() ==> arg_key(
                #[trigger] node_at(cmds, path).args@[j],
            ) != arg_key(#[trigger] node_at(cmds, path).args@[m]),
        forall|j: int|
            0 <= j < node_at(cmds, path).flags@.len() ==> !((#[trigger] node_at(
                cmds,
                path,
            ).flags@[j]).required && node_at(cmds, path).flags@[j].default is None),
    ensures
        resolve_in(dotted_name(cmds, path), cmds, prefix) is Ok,
        resolve_in(dotted_name(cmds, path), cmds, prefix)->Ok_0 is Run,
        resolve_in(dotted_name(cmds, path), cmds, prefix)->Ok_0->Run_0 == node_at(
            cmds,
            path,
        ).command@,
        forall|j: int|
            0 <= j < node_at(cmds, path).args@.len() ==> {
                let env = resolve_in(dotted_name(cmds, path), cmds, prefix)->Ok_0->Run_1;
                let a = #[trigger] node_at(cmds, path).args@[j];
                env.contains_key(arg_key(a)) && env[arg_key(a)] == a.default->0@
            },
    decreases path.len(),
{
    let b = path[0];
    if path.len() == 1 {
        lemma_defaults_bound(dotted_name(cmds, path), cmds, prefix, b);
    } else {
        let c = cmds[b];
        let rest = path.drop_first();
        lemma_group_descent(dotted_name(cmds, path), cmds, prefix, b);
        lemma_dotted_name_binds_defaults(c.commands@, rest, prefix + c.name@ + " "@);
    }
}

/// Text without white space is its own trimmed form.
proof fn lemma_trim_without_space(t: Seq<char>)
    requires
        forall|k: int| 0 <= k < t.len() ==> !is_space(#[trigger] t[k]),
    ensures
        trim(t) == t,
{
    assert(trim_start(t) == t);
    if t.len() > 0 {
        assert(!is_space(t.last()));
    }
    assert(trim_end(t) == t);
}

/// A token that names a well-formed flag starts with a hyphen, so it is
/// looked up as a flag.
pub proof fn lemma_flag_token_has_dash(f: Flag, t: Seq<char>)
    requires
        f.check() is None,
        flag_named(f, t),
        forall|k: int| 0 <= k < t.len() ==> !is_space(#[trigger] t[k]),
    ensures
        t.len() > 0 && t[0] == '-',
{
    lemma_trim_without_space(t);
    if f.long@ == t {
        assert(is_long_flag_form(trim(f.long@)));
    } else {
        assert(is_short_flag_form(trim(f.short->0@)));
    }
}

/// For a leaf whose only parameter is a well-formed greedy flag with a value,
/// naming the flag first binds its value to every later token joined by
/// spaces, even tokens that look like flags, and nothing else.
pub proof fn lemma_greedy_flag_binds_rest(toks: Seq<Seq<char>>, c: Command, f: Flag)
    requires
        c.args@.len() == 0,
        c.flags@ == seq![f],
        f.check() is None,
        f.greedy,
        f.arg is Some,
        toks.len() >= 2,
        flag_named(f, toks[0]),
        forall|k: int| 0 <= k < toks[0].len() ==> !is_space(#[trigger] toks[0][k]),
    ensures
        bind_all(toks, c) == Ok::<Map<Seq<char>, Seq<char>>, Failure>(
            Map::empty().insert(f.arg->0@, join_words(toks.skip(1))),
        ),
{
    lemma_flag_token_has_dash(f, toks[0]);
    assert(find_flag_from(c.flags@, toks[0], 0) == Some(0int));
    let env = Map::<Seq<char>, Seq<char>>::empty().insert(f.arg->0@, join_words(toks.skip(1)));
    assert(bind_tokens(toks, c, 0, 0, Map::empty()) == Ok::<
        (int, Map<Seq<char>, Seq<char>>),
        Failure,
    >((0, env)));
    assert(flag_key(f) == f.arg->0@);
    assert(fill_flags(c.flags@, 1, env) == Ok::<Map<Seq<char>, Seq<char>>, Failure>(env));
}

/// A name that is not empty and holds no white space.
pub open spec fn plain_name(n: Seq<char>) -> bool {
    n.len() > 0 && forall|k: int| 0 <= k < n.len() ==> !is_space(#[trigger] n[k])
}

/// Sibling names are plain and pairwise distinct.
pub open spec fn plain_siblings(cmds: Seq<Command>) -> bool {
    &&& forall|i: int| 0 <= i < cmds.len() ==> plain_name(#[trigger] cmds[i].name@)
    &&& forall|i: int, j: int|
        0 <= i < j < cmds.len() ==> (#[trigger] cmds[i]).name@ != (#[trigger] cmds[j]).name@
}

/// `path` goes from `cmds` down through groups to a leaf, every level has
/// plain distinct sibling names, and no name below the top is `-h` or
/// `--help` (which a group reads as a request for its help).
pub open spec fn tree_path(cmds: Seq<Command>, path: Seq<int>) -> bool
    decreases path.len(),
{
    &&& path.len() > 0
    &&& 0 <= path[0] < cmds.len()
    &&& plain_siblings(cmds)
    &&& if path.len() == 1 {
        cmds[path[0]].commands@.len() == 0
    } else {
        let children = cmds[path[0]].commands@;
        &&& children.len() > 0
        &&& tree_path(children, path.drop_first())
        &&& !is_help_token(children[path[1]].name@)
    }
}

proof fn lemma_dotted_ends(cmds: Seq<Command>, path: Seq<int>)
    requires
        tree_path(cmds, path),
    ensures
        dotted_name(cmds, path).len() > 0,
        !is_space(dotted_name(cmds, path)[0]),
        !is_space(dotted_name(cmds, path).last()),
    decreases path.len(),
{
    let n = cmds[path[0]].name@;
    assert(plain_name(n));
    if path.len() > 1 {
        let rest = dotted_name(cmds[path[0]].commands@, path.drop_first());
        lemma_dotted_ends(cmds[path[0]].commands@, path.drop_first());
        let d = n + " "@ + rest;
        assert(d[0] == n[0]);
        assert(d.last() == rest.last());
    }
}

/// `input` is the name `n`, alone or followed by a space.
pub open spec fn starts_with_name(input: Seq<char>, n: Seq<char>) -> bool {
    input == n || (n.len() < input.len() && input.take(n.len() as int) == n && input[n.len() as int]
        == ' ')
}

/// Of plain names, only `n` matches an input that starts with the name `n`.
proof fn lemma_match_is_same(input: Seq<char>, n: Seq<char>, m: Seq<char>)
    requires
        plain_name(n),
        plain_name(m),
        starts_with_name(input, n),
        name_matches(input, m),
    ensures
        m == n,
{
    if input == m {
        if input != n {
            assert(input[n.len() as int] == ' ');
            assert(!is_space(m[n.len() as int]));
        }
    } else {
        assert(input.take(m.len() as int) == m && input[m.len() as int] == ' ');
        if m.len() < n.len() {
            if input == n {
                assert(!is_space(n[m.len() as int]));
            } else {
                assert(input[m.len() as int] == input.take(n.len() as int)[m.len() as int]);
                assert(!is_space(n[m.len() as int]));
            }
        } else if m.len() > n.len() {
            assert(input != n);
            assert(m[n.len() as int] == input.take(m.len() as int)[n.len() as int]);
            assert(!is_space(m[n.len() as int]));
        } else {
            assert(input != n);
            assert(m =~= n);
        }
    }
}

/// Among plain distinct siblings, the one whose name starts the input is the
/// one the input selects.
proof fn lemma_only_match(input: Seq<char>, cmds: Seq<Command>, b: int)
    requires
        plain_siblings(cmds),
        0 <= b < cmds.len(),
        starts_with_name(input, cmds[b].name@),
    ensures
        is_best_match(input, cmds, b),
{
    let n = cmds[b].name@;
    assert(plain_name(n));
    assert forall|j: int|
        0 <= j < cmds.len() && name_matches(input, #[trigger] cmds[j].name@) implies j == b by {
        assert(plain_name(cmds[j].name@));
        lemma_match_is_same(input, n, cmds[j].name@);
        if j < b {
            assert(cmds[j].name@ != cmds[b].name@);
        } else if j > b {
            assert(cmds[b].name@ != cmds[j].name@);
        }
    }
}

/// What follows a name and a space, when it has no white space at its ends.
proof fn lemma_remainder_after_space(n: Seq<char>, rest: Seq<char>)
    requires
        rest.len() > 0,
        !is_space(rest[0]),
        !is_space(rest.last()),
    ensures
        remainder(n + seq![' '] + rest, n) == rest,
{
    let input = n + seq![' '] + rest;
    assert(input.len() > n.len());
    let tail = input.skip(n.len() as int);
    assert(tail =~= seq![' '] + rest);
    assert(tail.drop_first() =~= rest);
    assert(is_space(tail[0]));
    assert(trim_start(tail) == trim_start(rest));
    assert(trim_start(rest) == rest);
    assert(trim_end(rest) == rest);
}

/// A text with a space in it is no help request.
proof fn lemma_spaced_not_help(t: Seq<char>, k: int)
    requires
        0 <= k < t.len(),
        t[k] == ' ',
    ensures
        !is_help_token(t),
{
    reveal_strlit("-h");
    reveal_strlit("--help");
}

/// Along a tree path, each level's part of the input selects the path's
/// command, and a group passes the rest on unchanged.
pub proof fn lemma_tree_path_selected(cmds: Seq<Command>, path: Seq<int>)
    requires
        tree_path(cmds, path),
    ensures
        path_selected(cmds, path),
    decreases path.len(),
{
    reveal_strlit(" ");
    let b = path[0];
    let n = cmds[b].name@;
    let input = dotted_name(cmds, path);
    if path.len() > 1 {
        let children = cmds[b].commands@;
        let rest = dotted_name(children, path.drop_first());
        lemma_dotted_ends(children, path.drop_first());
        lemma_tree_path_selected(children, path.drop_first());
        assert(" "@ =~= seq![' ']);
        assert(input == n + seq![' '] + rest);
        assert(input.take(n.len() as int) =~= n);
        lemma_remainder_after_space(n, rest);
        if path.drop_first().len() > 1 {
            let c2 = children[path[1]].name@;
            let r2 = dotted_name(children[path[1]].commands@, path.drop_first().drop_first());
            assert(path.drop_first()[0] == path[1]);
            assert(rest == c2 + " "@ + r2);
            assert(rest[c2.len() as int] == ' ');
            lemma_spaced_not_help(rest, c2.len() as int);
        } else {
            assert(path.drop_first()[0] == path[1]);
            assert(rest == children[path[1]].name@);
        }
    }
    lemma_only_match(input, cmds, b);
}

/// The message `!` followed by a leaf's full dotted name, with no arguments,
/// resolves to the leaf's template with every argument default bound under
/// the argument's key: for a path of plain distinct sibling names, none below
/// the top being `-h` or `--help`, a leaf whose arguments all have defaults
/// under distinct keys, and no flag required without a default.
pub proof fn lemma_message_binds_defaults(cmds: Seq<Command>, path: Seq<int>)
    requires
        tree_path(cmds, path),
        dotted_name(cmds, path) != "help"@,
        forall|j: int|
            0 <= j < node_at(cmds, path).args@.len() ==> (#[trigger] node_at(
                cmds,
                path,
            ).args@[j]).default is Some,
        forall|j: int, m: int|
            0 <= j < m < node_at(cmds, path).args@.len() ==> arg_key(
                #[trigger] node_at(cmds, path).args@[j],
            ) != arg_key(#[trigger] node_at(cmds, path).args@[m]),
        forall|j: int|
            0 <= j < node_at(cmds, path).flags@.len() ==> !((#[trigger] node_at(
                cmds,
                path,
            ).flags@[j]).required && node_at(cmds, path).flags@[j].default is None),
    ensures
        ({
            let r = resolve_message(seq!['!'] + dotted_name(cmds, path), cmds);
            &&& r is Ok
            &&& r->Ok_0 is Run
            &&& r->Ok_0->Run_0 == node_at(cmds, path).command@
            &&& forall|j: int|
                0 <= j < node_at(cmds, path).args@.len() ==> {
                    let a = #[trigger] node_at(cmds, path).args@[j];
                    r->Ok_0->Run_1.contains_key(arg_key(a)) && r->Ok_0->Run_1[arg_key(a)]
                        == a.default->0@
                }
        }),
{
    lemma_tree_path_selected(cmds, path);
    assert((seq!['!'] + dotted_name(cmds, path)).drop_first() =~= dotted_name(cmds, path));
    lemma_dotted_name_binds_defaults(cmds, path, "!"@);
}

} // verus!
