use vstd::prelude::*;
use rand::Rng;
use crate::text::{lowercase_of, to_lowercase};
use crate::legacy::parse_u64_spec;
use crate::todo::{Todo, TaskView};
use crate::storage::{Storage, flat_forest};

verus! {

/// The command of a command line.
#[derive(PartialEq, Eq, Structural, Clone, Copy, Debug)]
pub enum CliCommand {
    CreateProject,
    DeleteProject,
    RenameProject,
    ListProjects,
    CreateTask,
    DeleteTask,
    ToggleTask,
    PinTask,
    UnpinTask,
    SetDue,
    ListTasks,
    Stats,
    DonePercents,
    Export,
    RandomTask,
    Today,
}

/// Why a command line was refused.
#[derive(PartialEq, Eq, Structural, Clone, Copy, Debug)]
pub enum CliError {
    /// `--project-name` without its argument.
    ProjectNameArgument,
    /// `--export` without a project and a format.
    ExportArguments,
    /// `--output` without its path.
    OutputArgument,
    /// `--tag` without its argument.
    TagArgument,
    /// A second command.
    OneCommandOnly,
    /// A task number is missing.
    MissingIndex,
    /// A task number does not read as a number.
    InvalidIndex,
    /// A task number is 0 or past the last task.
    IndexOutOfRange,
}

/// What a command line asks for.
pub struct CliArgs {
    pub project: String,
    pub command: Option<CliCommand>,
    pub tag: String,
    pub done: bool,
    pub pending: bool,
    pub pinned: bool,
    pub export_project: String,
    pub export_format: String,
    pub export_output: Option<String>,
    pub random_project: Option<String>,
    pub today_project: Option<String>,
}

/// The model of what a command line asks for.
#[verifier::ext_equal]
pub struct ArgsView {
    pub project: Seq<char>,
    pub command: Option<CliCommand>,
    pub tag: Seq<char>,
    pub done: bool,
    pub pending: bool,
    pub pinned: bool,
    pub export_project: Seq<char>,
    pub export_format: Seq<char>,
    pub export_output: Option<Seq<char>>,
    pub random_project: Option<Seq<char>>,
    pub today_project: Option<Seq<char>>,
}

pub open spec fn opt_text(o: Option<String>) -> Option<Seq<char>> {
    match o {
        Some(s) => Some(s@),
        None => None,
    }
}

impl View for CliArgs {
    type V = ArgsView;

    open spec fn view(&self) -> ArgsView {
        ArgsView {
            project: self.project@,
            command: self.command,
            tag: self.tag@,
            done: self.done,
            pending: self.pending,
            pinned: self.pinned,
            export_project: self.export_project@,
            export_format: self.export_format@,
            export_output: opt_text(self.export_output),
            random_project: opt_text(self.random_project),
            today_project: opt_text(self.today_project),
        }
    }
}

/// What a command line asks for before any of its words are read.
pub open spec fn no_args() -> ArgsView {
    ArgsView {
        project: "default"@,
        command: None,
        tag: Seq::empty(),
        done: false,
        pending: false,
        pinned: false,
        export_project: Seq::empty(),
        export_format: Seq::empty(),
        export_output: None,
        random_project: None,
        today_project: None,
    }
}

/// A word that starts with `-`.
pub open spec fn dash(t: Seq<char>) -> bool {
    t.len() > 0 && t[0] == '-'
}

/// The commands that take their arguments from fixed places of the line.
pub open spec fn plain_command(t: Seq<char>) -> Option<CliCommand> {
    if t == "--create-project"@ {
        Some(CliCommand::CreateProject)
    } else if t == "--delete-project"@ {
        Some(CliCommand::DeleteProject)
    } else if t == "--rename-project"@ {
        Some(CliCommand::RenameProject)
    } else if t == "--list-projects"@ {
        Some(CliCommand::ListProjects)
    } else if t == "--create-task"@ {
        Some(CliCommand::CreateTask)
    } else if t == "--delete-task"@ {
        Some(CliCommand::DeleteTask)
    } else if t == "--toggle-task"@ {
        Some(CliCommand::ToggleTask)
    } else if t == "--pin-task"@ {
        Some(CliCommand::PinTask)
    } else if t == "--unpin-task"@ {
        Some(CliCommand::UnpinTask)
    } else if t == "--set-due"@ {
        Some(CliCommand::SetDue)
    } else if t == "--list-tasks"@ {
        Some(CliCommand::ListTasks)
    } else if t == "--stats"@ {
        Some(CliCommand::Stats)
    } else if t == "--done-percents"@ {
        Some(CliCommand::DonePercents)
    } else {
        None
    }
}

/// Reads the words of a command line from place `i` on into `a`; right
/// after `--export` and its two arguments, `--output` options are read.
/// Words that mean nothing are passed over.
pub open spec fn cli_parse(tokens: Seq<Seq<char>>, i: int, a: ArgsView, after_export: bool) -> Result<ArgsView, CliError>
    decreases tokens.len() - i,
{
    if i < 0 || i >= tokens.len() {
        Ok(a)
    } else {
        let t = tokens[i];
        if after_export && t == "--output"@ {
            if i + 1 < tokens.len() {
                cli_parse(tokens, i + 2, ArgsView { export_output: Some(tokens[i + 1]), ..a }, true)
            } else {
                Err(CliError::OutputArgument)
            }
        } else if t == "--project-name"@ {
            if i + 1 < tokens.len() {
                cli_parse(tokens, i + 2, ArgsView { project: tokens[i + 1], ..a }, false)
            } else {
                Err(CliError::ProjectNameArgument)
            }
        } else if t == "--export"@ {
            if i + 2 < tokens.len() && !dash(tokens[i + 1]) && !dash(tokens[i + 2]) {
                cli_parse(tokens, i + 3, ArgsView {
                    command: Some(CliCommand::Export),
                    export_project: tokens[i + 1],
                    export_format: lowercase_of(tokens[i + 2]),
                    ..a
                }, true)
            } else {
                Err(CliError::ExportArguments)
            }
        } else if t == "--random-task"@ {
            if i + 1 < tokens.len() && !dash(tokens[i + 1]) {
                cli_parse(tokens, i + 2, ArgsView { command: Some(CliCommand::RandomTask), random_project: Some(tokens[i + 1]), ..a }, false)
            } else {
                cli_parse(tokens, i + 1, ArgsView { command: Some(CliCommand::RandomTask), random_project: None, ..a }, false)
            }
        } else if t == "--today"@ {
            if i + 1 < tokens.len() && !dash(tokens[i + 1]) {
                cli_parse(tokens, i + 2, ArgsView { command: Some(CliCommand::Today), today_project: Some(tokens[i + 1]), ..a }, false)
            } else {
                cli_parse(tokens, i + 1, ArgsView { command: Some(CliCommand::Today), today_project: None, ..a }, false)
            }
        } else if plain_command(t) is Some {
            if a.command is None {
                cli_parse(tokens, i + 1, ArgsView { command: plain_command(t), ..a }, false)
            } else {
                Err(CliError::OneCommandOnly)
            }
        } else if t == "--tag"@ {
            if i + 1 < tokens.len() {
                cli_parse(tokens, i + 2, ArgsView { tag: tokens[i + 1], ..a }, false)
            } else {
                Err(CliError::TagArgument)
            }
        } else if t == "--done"@ {
            cli_parse(tokens, i + 1, ArgsView { done: true, ..a }, false)
        } else if t == "--pending"@ {
            cli_parse(tokens, i + 1, ArgsView { pending: true, ..a }, false)
        } else if t == "--pinned"@ {
            cli_parse(tokens, i + 1, ArgsView { pinned: true, ..a }, false)
        } else {
            cli_parse(tokens, i + 1, a, false)
        }
    }
}

pub open spec fn texts_of(v: Seq<String>) -> Seq<Seq<char>> {
    v.map_values(|s: String| s@)
}

fn is_word(t: &String, w: &str) -> (r: bool)
    ensures
        r == (t@ == w@),
{
    *t == String::from_str(w)
}

fn starts_with_dash(t: &String) -> (r: bool)
    ensures
        r == dash(t@),
{
    let s = t.as_str();
    s.unicode_len() > 0 && s.get_char(0) == '-'
}

fn plain_command_of(t: &String) -> (r: Option<CliCommand>)
    ensures
        r == plain_command(t@),
{
    if is_word(t, "--create-project") {
        Some(CliCommand::CreateProject)
    } else if is_word(t, "--delete-project") {
        Some(CliCommand::DeleteProject)
    } else if is_word(t, "--rename-project") {
        Some(CliCommand::RenameProject)
    } else if is_word(t, "--list-projects") {
        Some(CliCommand::ListProjects)
    } else if is_word(t, "--create-task") {
        Some(CliCommand::CreateTask)
    } else if is_word(t, "--delete-task") {
        Some(CliCommand::DeleteTask)
    } else if is_word(t, "--toggle-task") {
        Some(CliCommand::ToggleTask)
    } else if is_word(t, "--pin-task") {
        Some(CliCommand::PinTask)
    } else if is_word(t, "--unpin-task") {
        Some(CliCommand::UnpinTask)
    } else if is_word(t, "--set-due") {
        Some(CliCommand::SetDue)
    } else if is_word(t, "--list-tasks") {
        Some(CliCommand::ListTasks)
    } else if is_word(t, "--stats") {
        Some(CliCommand::Stats)
    } else if is_word(t, "--done-percents") {
        Some(CliCommand::DonePercents)
    } else {
        None
    }
}

/// Reads the words of a command line, the program's name left out (see
/// `cli_parse`).
pub fn parse_args(tokens: &Vec<String>) -> (r: Result<CliArgs, CliError>)
    ensures
        match r {
            Ok(a) => cli_parse(texts_of(tokens@), 0, no_args(), false) == Ok::<ArgsView, CliError>(a@),
            Err(e) => cli_parse(texts_of(tokens@), 0, no_args(), false) == Err::<ArgsView, CliError>(e),
        },
{
    let ghost tv = texts_of(tokens@);
    let mut a = CliArgs {
        project: String::from_str("default"),
        command: None,
        tag: String::new(),
        done: false,
        pending: false,
        pinned: false,
        export_project: String::new(),
        export_format: String::new(),
        export_output: None,
        random_project: None,
        today_project: None,
    };
    proof {
        assert(a@ =~= no_args());
    }
    let n = tokens.len();
    let mut i: usize = 0;
    let mut after_export = false;
    while i < n
        invariant
            n == tokens@.len(),
            tv == texts_of(tokens@),
            tv.len() == n,
            i <= n + 1,
            cli_parse(tv, 0, no_args(), false) == cli_parse(tv, i as int, a@, after_export),
        decreases n + 1 - i,
    {
        let t = &tokens[i];
        proof {
            assert(tv[i as int] == t@);
            if i + 1 < n {
                assert(tv[i + 1] == tokens@[i + 1]@);
            }
            if i + 2 < n {
                assert(tv[i + 2] == tokens@[i + 2]@);
            }
        }
        if after_export && is_word(t, "--output") {
            if i + 1 < n {
                a.export_output = Some(tokens[i + 1].clone());
                i = i + 2;
            } else {
                return Err(CliError::OutputArgument);
            }
        } else if is_word(t, "--project-name") {
            after_export = false;
            if i + 1 < n {
                a.project = tokens[i + 1].clone();
                i = i + 2;
            } else {
                return Err(CliError::ProjectNameArgument);
            }
        } else if is_word(t, "--export") {
            if n - i > 2 && !starts_with_dash(&tokens[i + 1]) && !starts_with_dash(&tokens[i + 2]) {
                a.command = Some(CliCommand::Export);
                a.export_project = tokens[i + 1].clone();
                a.export_format = to_lowercase(tokens[i + 2].as_str());
                after_export = true;
                i = i + 3;
            } else {
                return Err(CliError::ExportArguments);
            }
        } else if is_word(t, "--random-task") {
            after_export = false;
            a.command = Some(CliCommand::RandomTask);
            if i + 1 < n && !starts_with_dash(&tokens[i + 1]) {
                a.random_project = Some(tokens[i + 1].clone());
                i = i + 2;
            } else {
                a.random_project = None;
                i = i + 1;
            }
        } else if is_word(t, "--today") {
            after_export = false;
            a.command = Some(CliCommand::Today);
            if i + 1 < n && !starts_with_dash(&tokens[i + 1]) {
                a.today_project = Some(tokens[i + 1].clone());
                i = i + 2;
            } else {
                a.today_project = None;
                i = i + 1;
            }
        } else {
            after_export = false;
            match plain_command_of(t) {
                Some(c) => {
                    if a.command.is_none() {
                        a.command = Some(c);
                        i = i + 1;
                    } else {
                        return Err(CliError::OneCommandOnly);
                    }
                },
                None => {
                    if is_word(t, "--tag") {
                        if i + 1 < n {
                            a.tag = tokens[i + 1].clone();
                            i = i + 2;
                        } else {
                            return Err(CliError::TagArgument);
                        }
                    } else if is_word(t, "--done") {
                        a.done = true;
                        i = i + 1;
                    } else if is_word(t, "--pending") {
                        a.pending = true;
                        i = i + 1;
                    } else if is_word(t, "--pinned") {
                        a.pinned = true;
                        i = i + 1;
                    } else {
                        i = i + 1;
                    }
                },
            }
        }
    }
    Ok(a)
}

/// A request to print the help or the version instead of running.
#[derive(PartialEq, Eq, Structural, Clone, Copy, Debug)]
pub enum EarlyExit {
    Help,
    Version,
}

/// The first argument after the program's name asks for the help (`-h`,
/// `--help`) or the version (`-V`, `--version`).
pub fn early_exit(args: &Vec<String>) -> (r: Option<EarlyExit>)
    ensures
        r == (if args@.len() >= 2 {
            let a = args@[1]@;
            if a == "-h"@ || a == "--help"@ {
                Some(EarlyExit::Help)
            } else if a == "-V"@ || a == "--version"@ {
                Some(EarlyExit::Version)
            } else {
                None
            }
        } else {
            None
        }),
{
    if args.len() >= 2 {
        let a = &args[1];
        if is_word(a, "-h") || is_word(a, "--help") {
            Some(EarlyExit::Help)
        } else if is_word(a, "-V") || is_word(a, "--version") {
            Some(EarlyExit::Version)
        } else {
            None
        }
    } else {
        None
    }
}

/// The options that take the next word as their value.
pub open spec fn takes_value(t: Seq<char>) -> bool {
    t == "--tag"@ || t == "--project-name"@ || t == "--output"@
}

/// Place of the first `--create-task`, from place `i` on, that is not the
/// value of an option.
pub open spec fn create_task_from(tokens: Seq<Seq<char>>, i: int) -> Option<int>
    decreases tokens.len() - i,
{
    if i < 0 || i >= tokens.len() {
        None
    } else if tokens[i] == "--create-task"@ {
        Some(i)
    } else if takes_value(tokens[i]) {
        if i + 1 >= tokens.len() {
            None
        } else {
            create_task_from(tokens, i + 2)
        }
    } else {
        create_task_from(tokens, i + 1)
    }
}

/// Place of the task text, from place `i` on: options are passed over, and
/// so is the value that follows an option which takes one.
pub open spec fn text_word_from(tokens: Seq<Seq<char>>, i: int) -> Option<int>
    decreases tokens.len() - i,
{
    if i < 0 || i >= tokens.len() {
        None
    } else if takes_value(tokens[i]) {
        if i + 1 >= tokens.len() {
            None
        } else {
            text_word_from(tokens, i + 2)
        }
    } else if dash(tokens[i]) {
        text_word_from(tokens, i + 1)
    } else {
        Some(i)
    }
}

/// Place of the text of a task to create: the word after `--create-task`,
/// passing over options and the values of options that take one.
pub open spec fn task_text_place(tokens: Seq<Seq<char>>) -> Option<int> {
    match create_task_from(tokens, 0) {
        Some(c) => text_word_from(tokens, c + 1),
        None => None,
    }
}

fn takes_value_word(t: &String) -> (r: bool)
    ensures
        r == takes_value(t@),
{
    is_word(t, "--tag") || is_word(t, "--project-name") || is_word(t, "--output")
}

/// The text of a task to create (see `task_text_place`).
pub fn task_text_arg(tokens: &Vec<String>) -> (r: Option<String>)
    ensures
        match task_text_place(texts_of(tokens@)) {
            Some(k) => r matches Some(t) && t@ == texts_of(tokens@)[k],
            None => r is None,
        },
{
    let ghost tv = texts_of(tokens@);
    let mut i: usize = 0;
    while i < tokens.len()
        invariant
            tv == texts_of(tokens@),
            tv.len() == tokens@.len(),
            create_task_from(tv, 0) == create_task_from(tv, i as int),
        ensures
            create_task_from(tv, 0) == create_task_from(tv, i as int),
            i < tokens.len() ==> tv[i as int] == "--create-task"@,
        decreases tokens.len() - i,
    {
        proof {
            assert(tv[i as int] == tokens@[i as int]@);
        }
        if is_word(&tokens[i], "--create-task") {
            break;
        }
        if takes_value_word(&tokens[i]) {
            if i + 1 >= tokens.len() {
                return None;
            }
            i = i + 2;
        } else {
            i = i + 1;
        }
    }
    if i >= tokens.len() {
        return None;
    }
    proof {
        assert(tv[i as int] == tokens@[i as int]@);
        assert(create_task_from(tv, 0) == Some(i as int));
    }
    i = i + 1;
    while i < tokens.len()
        invariant
            tv == texts_of(tokens@),
            tv.len() == tokens@.len(),
            task_text_place(tv) == text_word_from(tv, i as int),
        decreases tokens.len() - i,
    {
        proof {
            assert(tv[i as int] == tokens@[i as int]@);
        }
        if takes_value_word(&tokens[i]) {
            if i + 1 >= tokens.len() {
                return None;
            }
            i = i + 2;
        } else if starts_with_dash(&tokens[i]) {
            i = i + 1;
        } else {
            return Some(tokens[i].clone());
        }
    }
    None
}

/// Place of the first command word, from place `i` on, that is not the
/// value of an option.
pub open spec fn command_from(tokens: Seq<Seq<char>>, i: int) -> Option<int>
    decreases tokens.len() - i,
{
    if i < 0 || i >= tokens.len() {
        None
    } else if plain_command(tokens[i]) is Some {
        Some(i)
    } else if takes_value(tokens[i]) {
        if i + 1 >= tokens.len() {
            None
        } else {
            command_from(tokens, i + 2)
        }
    } else {
        command_from(tokens, i + 1)
    }
}

/// Place of the task number of a command that takes one: the word after
/// the command, passing over options and the values of options that take one.
pub open spec fn index_place(tokens: Seq<Seq<char>>) -> Option<int> {
    match command_from(tokens, 0) {
        Some(c) => text_word_from(tokens, c + 1),
        None => None,
    }
}

/// Place of the date of `--set-due`: the word after the task number, in
/// the same way.
pub open spec fn date_place(tokens: Seq<Seq<char>>) -> Option<int> {
    match index_place(tokens) {
        Some(k) => text_word_from(tokens, k + 1),
        None => None,
    }
}

/// Place of the first command word (see `command_from`).
fn command_place(tokens: &Vec<String>) -> (r: Option<usize>)
    ensures
        match r {
            Some(c) => command_from(texts_of(tokens@), 0) == Some(c as int) && c < tokens.len(),
            None => command_from(texts_of(tokens@), 0) is None,
        },
{
    let ghost tv = texts_of(tokens@);
    let mut i: usize = 0;
    while i < tokens.len()
        invariant
            tv == texts_of(tokens@),
            tv.len() == tokens@.len(),
            command_from(tv, 0) == command_from(tv, i as int),
        decreases tokens.len() - i,
    {
        proof {
            assert(tv[i as int] == tokens@[i as int]@);
        }
        if plain_command_of(&tokens[i]).is_some() {
            return Some(i);
        }
        if takes_value_word(&tokens[i]) {
            if i + 1 >= tokens.len() {
                return None;
            }
            i = i + 2;
        } else {
            i = i + 1;
        }
    }
    None
}

/// Place of the next word that is neither an option nor an option's value,
/// from place `i` on (see `text_word_from`).
fn word_from(tokens: &Vec<String>, start: usize) -> (r: Option<usize>)
    ensures
        match r {
            Some(k) => text_word_from(texts_of(tokens@), start as int) == Some(k as int) && k < tokens.len(),
            None => text_word_from(texts_of(tokens@), start as int) is None,
        },
{
    let ghost tv = texts_of(tokens@);
    let mut i: usize = start;
    while i < tokens.len()
        invariant
            tv == texts_of(tokens@),
            tv.len() == tokens@.len(),
            start <= i,
            text_word_from(tv, start as int) == text_word_from(tv, i as int),
        decreases tokens.len() - i,
    {
        proof {
            assert(tv[i as int] == tokens@[i as int]@);
        }
        if takes_value_word(&tokens[i]) {
            if i + 1 >= tokens.len() {
                return None;
            }
            i = i + 2;
        } else if starts_with_dash(&tokens[i]) {
            i = i + 1;
        } else {
            return Some(i);
        }
    }
    None
}

/// The place in the task list of the task that the word after the command
/// numbers (see `index_place`): an error when there is no such word or it
/// does not read, or when the number is 0 or past the `count` tasks;
/// numbers start at 1.
pub fn task_number(tokens: &Vec<String>, count: usize) -> (r: Result<usize, CliError>)
    ensures
        match index_place(texts_of(tokens@)) {
            None => r == Err::<usize, CliError>(CliError::MissingIndex),
            Some(k) => r == match parse_u64_spec(texts_of(tokens@)[k]) {
                None => Err(CliError::InvalidIndex),
                Some(v) => if v > usize::MAX {
                    Err(CliError::InvalidIndex)
                } else if v == 0 || v > count {
                    Err(CliError::IndexOutOfRange)
                } else {
                    Ok((v - 1) as usize)
                },
            },
        },
{
    let c = match command_place(tokens) {
        None => {
            return Err(CliError::MissingIndex);
        },
        Some(c) => c,
    };
    let k = match word_from(tokens, c + 1) {
        None => {
            return Err(CliError::MissingIndex);
        },
        Some(k) => k,
    };
    proof {
        assert(texts_of(tokens@)[k as int] == tokens@[k as int]@);
    }
    let chars = crate::text::chars_of(tokens[k].as_str());
    match crate::legacy::parse_u64(&chars) {
        None => Err(CliError::InvalidIndex),
        Some(v) => {
            if v > usize::MAX as u64 {
                Err(CliError::InvalidIndex)
            } else {
                let idx = v as usize;
                if idx == 0 || idx > count {
                    Err(CliError::IndexOutOfRange)
                } else {
                    Ok(idx - 1)
                }
            }
        },
    }
}

/// The date of `--set-due` (see `date_place`).
pub fn due_date_arg(tokens: &Vec<String>) -> (r: Option<String>)
    ensures
        match date_place(texts_of(tokens@)) {
            Some(k) => r matches Some(t) && t@ == texts_of(tokens@)[k],
            None => r is None,
        },
{
    let c = match command_place(tokens) {
        None => {
            return None;
        },
        Some(c) => c,
    };
    let k = match word_from(tokens, c + 1) {
        None => {
            return None;
        },
        Some(k) => k,
    };
    match word_from(tokens, k + 1) {
        None => None,
        Some(d) => {
            proof {
                assert(texts_of(tokens@)[d as int] == tokens@[d as int]@);
            }
            Some(tokens[d].clone())
        },
    }
}

/// The filters of `--list-tasks`: done tasks with `--done`, else pending
/// ones with `--pending`; pinned ones with `--pinned`; the tag of `--tag`.
pub fn list_filters(a: &CliArgs) -> (r: (Option<bool>, Option<bool>, Option<String>))
    ensures
        r.0 == (if a.done { Some(true) } else if a.pending { Some(false) } else { None::<bool> }),
        r.1 == (if a.pinned { Some(true) } else { None::<bool> }),
        opt_text(r.2) == (if a.tag@.len() > 0 { Some(a.tag@) } else { None::<Seq<char>> }),
{
    let d = if a.done { Some(true) } else if a.pending { Some(false) } else { None };
    let p = if a.pinned { Some(true) } else { None };
    let t = if a.tag.as_str().is_empty() { None } else { Some(a.tag.clone()) };
    (d, p, t)
}

/// Whether a task of the listing has the text and the tag.
pub open spec fn duplicate_in(flat: Seq<TaskView>, text: Seq<char>, tag: Seq<char>) -> bool {
    exists|k: int| 0 <= k < flat.len() && (#[trigger] flat[k]).text == text
        && ((tag.len() == 0 && flat[k].tag.len() == 0) || flat[k].tag == tag)
}

pub open spec fn listed(flat: Seq<(usize, &Todo)>) -> Seq<TaskView> {
    flat.map_values(|p: (usize, &Todo)| p.1@)
}

/// Whether a task of the listing already has the text and the tag.
pub fn has_duplicate(flat: &Vec<(usize, &Todo)>, text: &str, tag: &str) -> (r: bool)
    ensures
        r == duplicate_in(listed(flat@), text@, tag@),
{
    let ghost lv = listed(flat@);
    let tx = String::from_str(text);
    let tg = String::from_str(tag);
    let mut i: usize = 0;
    while i < flat.len()
        invariant
            lv == listed(flat@),
            lv.len() == flat@.len(),
            tx@ == text@,
            tg@ == tag@,
            i <= flat@.len(),
            forall|k: int| 0 <= k < i ==> !((#[trigger] lv[k]).text == text@
                && ((tag@.len() == 0 && lv[k].tag.len() == 0) || lv[k].tag == tag@)),
        decreases flat.len() - i,
    {
        let t = flat[i].1;
        proof {
            assert(lv[i as int] == t@);
        }
        if t.text == tx && ((tg.as_str().is_empty() && t.tag.as_str().is_empty()) || t.tag == tg) {
            return true;
        }
        i = i + 1;
    }
    false
}

/// Seconds in a day.
pub const DAY_SECONDS: u64 = 86400;

/// The plan of a day: the number of tasks not done, and those not done
/// that were due before the day began or are due within it.
pub struct TodayPlan<'a> {
    pub pending: usize,
    pub overdue: Vec<&'a Todo>,
    pub due_today: Vec<&'a Todo>,
}

pub open spec fn refs_views(v: Seq<&Todo>) -> Seq<TaskView> {
    v.map_values(|t: &Todo| t@)
}

/// The tasks of a listing that satisfy `p`, in order.
pub open spec fn keep(flat: Seq<TaskView>, p: spec_fn(TaskView) -> bool) -> Seq<TaskView>
    decreases flat.len(),
{
    if flat.len() == 0 {
        Seq::empty()
    } else if p(flat.last()) {
        keep(flat.drop_last(), p).push(flat.last())
    } else {
        keep(flat.drop_last(), p)
    }
}

/// Tasks not done whose due time is set and before `start`.
pub open spec fn overdue_at(start: int) -> spec_fn(TaskView) -> bool {
    |t: TaskView| !t.done && t.due_date > 0 && t.due_date < start
}

/// Tasks not done whose due time falls in `[start, end)`.
pub open spec fn due_within(start: int, end: int) -> spec_fn(TaskView) -> bool {
    |t: TaskView| !t.done && t.due_date > 0 && start <= t.due_date && t.due_date < end
}

pub open spec fn not_done() -> spec_fn(TaskView) -> bool {
    |t: TaskView| !t.done
}

/// The plan of the day that holds `now` (days start at multiples of a day
/// since the epoch, in UTC), over a listing of tasks.
pub fn today_plan<'a>(flat: &Vec<(usize, &'a Todo)>, now: u64) -> (r: TodayPlan<'a>)
    requires
        now <= u64::MAX - DAY_SECONDS,
    ensures
        ({
            let start = now - now % 86400;
            &&& r.pending == keep(listed(flat@), not_done()).len()
            &&& refs_views(r.overdue@) == keep(listed(flat@), overdue_at(start))
            &&& refs_views(r.due_today@) == keep(listed(flat@), due_within(start, start + 86400))
        }),
{
    let start = now - now % DAY_SECONDS;
    let end = start + DAY_SECONDS;
    let ghost lv = listed(flat@);
    let mut pending: usize = 0;
    let mut overdue: Vec<&'a Todo> = Vec::new();
    let mut due_today: Vec<&'a Todo> = Vec::new();
    let mut i: usize = 0;
    while i < flat.len()
        invariant
            lv == listed(flat@),
            lv.len() == flat@.len(),
            i <= flat@.len(),
            start == now - now % 86400,
            end == start + 86400,
            pending == keep(lv.take(i as int), not_done()).len(),
            pending <= i,
            refs_views(overdue@) == keep(lv.take(i as int), overdue_at(start as int)),
            refs_views(due_today@) == keep(lv.take(i as int), due_within(start as int, end as int)),
        decreases flat.len() - i,
    {
        let t = flat[i].1;
        proof {
            assert(lv[i as int] == t@);
            assert(lv.take(i as int + 1).drop_last() =~= lv.take(i as int));
            assert(lv.take(i as int + 1).last() == t@);
        }
        let ghost o0 = overdue@;
        let ghost d0 = due_today@;
        if !t.done {
            pending = pending + 1;
            if t.due_date > 0 {
                if t.due_date < start {
                    overdue.push(t);
                    proof {
                        assert(refs_views(overdue@) =~= refs_views(o0).push(t@));
                    }
                } else if t.due_date < end {
                    due_today.push(t);
                    proof {
                        assert(refs_views(due_today@) =~= refs_views(d0).push(t@));
                    }
                }
            }
        }
        i = i + 1;
    }
    proof {
        assert(lv.take(i as int) =~= lv);
    }
    TodayPlan { pending, overdue, due_today }
}

/// Calls `Rng::gen_range` of rand on the thread's generator: a number below `n`.
#[verifier::external_body]
fn random_below(n: usize) -> (r: usize)
    requires
        n > 0,
    ensures
        r < n,
{
    rand::thread_rng().gen_range(0..n)
}

/// A task not done of the list, picked at random; none when every task is done.
pub fn random_pending_task<'a>(storage: &'a Storage) -> (r: Option<&'a Todo>)
    requires
        crate::todo::count_forest(storage.tasks(), crate::todo::any_task()) < usize::MAX,
    ensures
        flat_forest(storage.tasks(), Some(false), None, None).len() == 0 ==> r is None,
        flat_forest(storage.tasks(), Some(false), None, None).len() > 0 ==> (r matches Some(t)
            && exists|k: int| 0 <= k < flat_forest(storage.tasks(), Some(false), None, None).len()
                && #[trigger] flat_forest(storage.tasks(), Some(false), None, None)[k] == t@),
{
    let pending = storage.list_tasks_flat(Some(false), None, None);
    if pending.len() == 0 {
        return None;
    }
    let k = random_below(pending.len());
    proof {
        assert(crate::storage::opt_str_view(None) == None::<Seq<char>>);
    }
    Some(pending[k].1)
}

} // verus!
