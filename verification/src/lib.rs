//! A fleet of game clients that log in to a server and stay: the wire
//! format of the protocol, the frames that carry it, the packets of a
//! client, the steps of joining and of staying in a game, the pools that
//! names and messages are drawn from, and the command line.
//!
//! The library computes. Sockets, timers and files are the caller's: it
//! hands in bytes and takes bytes back.

pub mod clanker;
pub mod numeral;
pub mod service;

use crate::numeral::{parse_decimal, read_decimal};
use vstd::prelude::*;
use vstd::string::*;
use vstd::utf8::*;

verus! {

/// What a fleet is started with.
pub struct Arguments {
    pub destination: String,
    pub number_of_threads: usize,
    pub clankers_count: usize,
    pub name_list: Option<String>,
    pub message_list: Option<String>,
    pub message_interval: u64,
}

/// `Arguments` as plain values.
pub struct ArgumentsModel {
    pub destination: Seq<char>,
    pub number_of_threads: usize,
    pub clankers_count: usize,
    pub name_list: Option<Seq<char>>,
    pub message_list: Option<Seq<char>>,
    pub message_interval: u64,
}

impl View for Arguments {
    type V = ArgumentsModel;

    open spec fn view(&self) -> ArgumentsModel {
        ArgumentsModel {
            destination: self.destination@,
            number_of_threads: self.number_of_threads,
            clankers_count: self.clankers_count,
            name_list: match self.name_list {
                Some(path) => Some(path@),
                None => None,
            },
            message_list: match self.message_list {
                Some(path) => Some(path@),
                None => None,
            },
            message_interval: self.message_interval,
        }
    }
}

/// Why a command line starts no fleet.
#[derive(Clone, Copy, Debug, PartialEq, Eq, Structural)]
pub enum ArgumentError {
    /// The flag at this index has no value behind it, or one that is no
    /// number where a number is due.
    Incomplete(usize),
    /// The argument at this index is no flag.
    Unknown(usize),
    /// No destination was given.
    EmptyDestination,
    /// The number of clankers is zero.
    NoClankers,
    /// The message interval is zero.
    NoInterval,
    /// A list of names was given, and no such file is there.
    NameListNotFound,
    /// No list of messages was given.
    MissingMessageList,
    /// The number of threads is zero.
    NoThreads,
}

/// The argument at index `i`, or nothing where there is none.
pub open spec fn argument_at(args: Seq<Seq<char>>, i: usize) -> Seq<char> {
    if i < args.len() {
        args[i as int]
    } else {
        Seq::empty()
    }
}

impl ArgumentError {
    /// What the error says of the command line `args`, in words.
    pub open spec fn text(self, args: Seq<Seq<char>>) -> Seq<char> {
        match self {
            ArgumentError::Incomplete(i) => "incomplete argument '"@ + argument_at(args, i)
                + "'"@,
            ArgumentError::Unknown(i) => "unknown argument '"@ + argument_at(args, i) + "'"@,
            ArgumentError::EmptyDestination => "destination address must not be empty"@,
            ArgumentError::NoClankers => "the number of clankers must not be zero"@,
            ArgumentError::NoInterval => "message interval must not be zero"@,
            ArgumentError::NameListNotFound => "name list '"@ + given_name_list(args)
                + "' doesn't exist on the filesystem"@,
            ArgumentError::MissingMessageList => "message list is missing"@,
            ArgumentError::NoThreads => "the number of threads must not be zero"@,
        }
    }

    /// What the error says of the command line `args`, in words.
    pub fn message(&self, args: &Vec<String>) -> (message: String)
        ensures
            message@ == self.text(texts(args@)),
    {
        match self {
            ArgumentError::Incomplete(i) => {
                let mut message = "incomplete argument '".to_owned();
                if *i < args.len() {
                    message.append(args[*i].as_str());
                }
                message.append("'");
                assert(message@ =~= self.text(texts(args@)));
                message
            },
            ArgumentError::Unknown(i) => {
                let mut message = "unknown argument '".to_owned();
                if *i < args.len() {
                    message.append(args[*i].as_str());
                }
                message.append("'");
                assert(message@ =~= self.text(texts(args@)));
                message
            },
            ArgumentError::EmptyDestination => "destination address must not be empty".to_owned(),
            ArgumentError::NoClankers => "the number of clankers must not be zero".to_owned(),
            ArgumentError::NoInterval => "message interval must not be zero".to_owned(),
            ArgumentError::NameListNotFound => {
                let mut message = "name list '".to_owned();
                match read_flags(args, 0) {
                    Ok(flags) => match flags.name_list {
                        Some(path) => {
                            message.append(path.as_str());
                        },
                        None => {},
                    },
                    Err(_) => {},
                }
                message.append("' doesn't exist on the filesystem");
                assert(message@ =~= self.text(texts(args@)));
                message
            },
            ArgumentError::MissingMessageList => "message list is missing".to_owned(),
            ArgumentError::NoThreads => "the number of threads must not be zero".to_owned(),
        }
    }
}

/// That `arg` asks for the help text.
pub open spec fn is_help(arg: Seq<char>) -> bool {
    arg == "-help"@ || arg == "--help"@ || arg == "/help"@ || arg == "-?"@ || arg == "--?"@
        || arg == "/?"@
}

/// Tells whether any argument asks for the help text.
pub fn wants_help(args: &Vec<String>) -> (wanted: bool)
    ensures
        wanted == exists|i: int| 0 <= i < args@.len() && is_help(#[trigger] args@[i]@),
{
    let mut i: usize = 0;
    while i < args.len()
        invariant
            i <= args.len(),
            forall|j: int| 0 <= j < i ==> !is_help(#[trigger] args@[j]@),
        decreases args.len() - i,
    {
        let v = args[i].as_str();
        if same_text(v, "-help") || same_text(v, "--help") || same_text(v, "/help") || same_text(
            v,
            "-?",
        ) || same_text(v, "--?") || same_text(v, "/?") {
            return true;
        }
        i = i + 1;
    }
    false
}

/// The flags of the command line. Each takes one value.
#[derive(Clone, Copy, Debug, PartialEq, Eq, Structural)]
pub enum Flag {
    Destination,
    Threads,
    Clankers,
    NameList,
    MessageList,
    MessageInterval,
}

/// The flag that `arg` spells, if it spells one.
pub open spec fn flag_of(arg: Seq<char>) -> Option<Flag> {
    if arg == "--destination"@ {
        Some(Flag::Destination)
    } else if arg == "--threads"@ {
        Some(Flag::Threads)
    } else if arg == "--clankers"@ {
        Some(Flag::Clankers)
    } else if arg == "--name-list"@ {
        Some(Flag::NameList)
    } else if arg == "--message-list"@ {
        Some(Flag::MessageList)
    } else if arg == "--message-interval"@ {
        Some(Flag::MessageInterval)
    } else {
        None
    }
}

/// `text` read as a number of at most `max`.
pub open spec fn number_of(text: Seq<char>, max: nat) -> Option<nat> {
    parse_decimal(encode_utf8(text), max)
}

/// `model` after `flag` was given `value`, or nothing where the value had
/// to be a number and is none.
pub open spec fn with_flag(model: ArgumentsModel, flag: Flag, value: Seq<char>) -> Option<
    ArgumentsModel,
> {
    match flag {
        Flag::Destination => Some(ArgumentsModel { destination: value, ..model }),
        Flag::Threads => match number_of(value, usize::MAX as nat) {
            Some(n) => Some(ArgumentsModel { number_of_threads: n as usize, ..model }),
            None => None,
        },
        Flag::Clankers => match number_of(value, usize::MAX as nat) {
            Some(n) => Some(ArgumentsModel { clankers_count: n as usize, ..model }),
            None => None,
        },
        Flag::NameList => Some(ArgumentsModel { name_list: Some(value), ..model }),
        Flag::MessageList => Some(ArgumentsModel { message_list: Some(value), ..model }),
        Flag::MessageInterval => match number_of(value, u64::MAX as nat) {
            Some(n) => Some(ArgumentsModel { message_interval: n as u64, ..model }),
            None => None,
        },
    }
}

/// `model` after the arguments from index `i` on: flags and their values
/// in turn, a later value of a flag replacing an earlier one.
pub open spec fn with_flags(args: Seq<Seq<char>>, i: nat, model: ArgumentsModel) -> Result<
    ArgumentsModel,
    ArgumentError,
>
    decreases args.len() - i,
{
    if i >= args.len() {
        Ok(model)
    } else {
        match flag_of(args[i as int]) {
            None => Err(ArgumentError::Unknown(i as usize)),
            Some(flag) => if i + 1 >= args.len() {
                Err(ArgumentError::Incomplete(i as usize))
            } else {
                match with_flag(model, flag, args[(i + 1) as int]) {
                    None => Err(ArgumentError::Incomplete(i as usize)),
                    Some(next) => with_flags(args, i + 2, next),
                }
            },
        }
    }
}

/// What holds before any flag: nothing is set but the number of threads.
pub open spec fn default_arguments(default_threads: usize) -> ArgumentsModel {
    ArgumentsModel {
        destination: Seq::empty(),
        number_of_threads: default_threads,
        clankers_count: 0,
        name_list: None,
        message_list: None,
        message_interval: 0,
    }
}

/// What a fleet cannot start without and what the command line alone
/// shows, first failure first.
pub open spec fn check_fleet(model: ArgumentsModel) -> Result<(), ArgumentError> {
    if model.destination.len() == 0 {
        Err(ArgumentError::EmptyDestination)
    } else if model.clankers_count == 0 {
        Err(ArgumentError::NoClankers)
    } else if model.message_interval == 0 {
        Err(ArgumentError::NoInterval)
    } else {
        Ok(())
    }
}

/// What is checked once the disk has been asked for the list of names,
/// first failure first: a list of names that was given is there, a list of
/// messages was given, and there is a thread to run on.
pub open spec fn check_lists(model: ArgumentsModel, name_list_exists: bool) -> Result<
    (),
    ArgumentError,
> {
    if model.name_list is Some && !name_list_exists {
        Err(ArgumentError::NameListNotFound)
    } else if model.message_list is None {
        Err(ArgumentError::MissingMessageList)
    } else if model.number_of_threads == 0 {
        Err(ArgumentError::NoThreads)
    } else {
        Ok(())
    }
}

/// The arguments that a command line stands for, given whether the list of
/// names that it gives is there. They start a fleet: no argument is unknown
/// or incomplete, there is a destination, clankers, an interval, a list of
/// messages and a thread, and the list of names is there where one is given.
pub open spec fn arguments_of(
    args: Seq<Seq<char>>,
    default_threads: usize,
    name_list_exists: bool,
) -> Result<ArgumentsModel, ArgumentError> {
    match with_flags(args, 0, default_arguments(default_threads)) {
        Err(e) => Err(e),
        Ok(model) => match check_fleet(model) {
            Err(e) => Err(e),
            Ok(()) => match check_lists(model, name_list_exists) {
                Err(e) => Err(e),
                Ok(()) => Ok(model),
            },
        },
    }
}

/// The list of names that the disk has to be asked for before a command
/// line can be judged: the one that its flags give, where nothing that the
/// command line alone shows has failed before.
pub open spec fn name_list_of(args: Seq<Seq<char>>, default_threads: usize) -> Option<Seq<char>> {
    match with_flags(args, 0, default_arguments(default_threads)) {
        Err(_) => None,
        Ok(model) => if check_fleet(model) is Ok {
            model.name_list
        } else {
            None
        },
    }
}

/// The list of names that the flags of a command line give, or nothing.
pub open spec fn given_name_list(args: Seq<Seq<char>>) -> Seq<char> {
    match with_flags(args, 0, default_arguments(0)) {
        Ok(model) => match model.name_list {
            Some(path) => path,
            None => Seq::empty(),
        },
        Err(_) => Seq::empty(),
    }
}

/// Flags other than the one for the list of messages leave that list as it
/// is.
proof fn lemma_flags_keep_message_list(args: Seq<Seq<char>>, i: nat, model: ArgumentsModel)
    requires
        forall|j: int| 0 <= j < args.len() ==> flag_of(#[trigger] args[j]) != Some(
            Flag::MessageList,
        ),
    ensures
        with_flags(args, i, model) matches Ok(last) ==> last.message_list == model.message_list,
    decreases args.len() - i,
{
    if i + 1 < args.len() && flag_of(args[i as int]) is Some {
        let flag = flag_of(args[i as int])->Some_0;
        let next = with_flag(model, flag, args[(i + 1) as int]);
        if next is Some {
            lemma_flags_keep_message_list(args, i + 2, next->Some_0);
        }
    }
}

/// A command line that names no list of messages starts no fleet, whatever
/// else it holds and whatever the disk holds.
pub proof fn lemma_message_list_is_required(
    args: Seq<Seq<char>>,
    default_threads: usize,
    name_list_exists: bool,
)
    requires
        forall|j: int| 0 <= j < args.len() ==> flag_of(#[trigger] args[j]) != Some(
            Flag::MessageList,
        ),
    ensures
        arguments_of(args, default_threads, name_list_exists) is Err,
{
    lemma_flags_keep_message_list(args, 0, default_arguments(default_threads));
}

/// What a command line stands for starts a fleet: there is a destination, a
/// thread, a clanker, an interval and a list of messages, and the list of
/// names is there where one is given.
pub proof fn lemma_arguments_start_a_fleet(
    args: Seq<Seq<char>>,
    default_threads: usize,
    name_list_exists: bool,
)
    ensures
        arguments_of(args, default_threads, name_list_exists) matches Ok(model) ==> {
            &&& model.destination.len() > 0
            &&& model.number_of_threads > 0
            &&& model.clankers_count > 0
            &&& model.message_interval > 0
            &&& model.message_list is Some
            &&& model.name_list is Some ==> name_list_exists
        },
{
}

/// The texts of a list of strings.
pub open spec fn texts(args: Seq<String>) -> Seq<Seq<char>> {
    Seq::new(args.len(), |i: int| args[i]@)
}

/// Tells whether two strings hold the same text.
pub fn same_text(a: &str, b: &str) -> (same: bool)
    ensures
        same == (a@ == b@),
{
    let left = a.as_bytes();
    let right = b.as_bytes();
    proof {
        encode_utf8_decode_utf8(a@);
        encode_utf8_decode_utf8(b@);
    }
    if left.len() != right.len() {
        return false;
    }
    let mut i: usize = 0;
    while i < left.len()
        invariant
            i <= left.len(),
            left@ == encode_utf8(a@),
            right@ == encode_utf8(b@),
            left@.len() == right@.len(),
            forall|j: int| 0 <= j < i ==> left@[j] == right@[j],
        decreases left.len() - i,
    {
        if left[i] != right[i] {
            return false;
        }
        i = i + 1;
    }
    assert(left@ =~= right@);
    true
}

/// Reads an argument as a flag.
pub fn read_flag(arg: &str) -> (flag: Option<Flag>)
    ensures
        flag == flag_of(arg@),
{
    if same_text(arg, "--destination") {
        Some(Flag::Destination)
    } else if same_text(arg, "--threads") {
        Some(Flag::Threads)
    } else if same_text(arg, "--clankers") {
        Some(Flag::Clankers)
    } else if same_text(arg, "--name-list") {
        Some(Flag::NameList)
    } else if same_text(arg, "--message-list") {
        Some(Flag::MessageList)
    } else if same_text(arg, "--message-interval") {
        Some(Flag::MessageInterval)
    } else {
        None
    }
}

/// Reads the flags of a command line and their values, one after the
/// other. Nothing is checked of what they add up to.
fn read_flags(args: &Vec<String>, default_threads: usize) -> (flags: Result<
    Arguments,
    ArgumentError,
>)
    ensures
        match with_flags(texts(args@), 0, default_arguments(default_threads)) {
            Err(e) => flags matches Err(f) && f == e,
            Ok(model) => flags matches Ok(arguments) && arguments@ == model,
        },
{
    let mut parsed_arguments = Arguments {
        destination: String::new(),
        number_of_threads: default_threads,
        clankers_count: 0,
        name_list: None,
        message_list: None,
        message_interval: 0,
    };
    let ghost all = texts(args@);
    let mut i: usize = 0;

    while i < args.len()
        invariant
            i <= args.len() + 1,
            all == texts(args@),
            with_flags(all, 0, default_arguments(default_threads)) == with_flags(
                all,
                i as nat,
                parsed_arguments@,
            ),
        decreases args.len() + 1 - i,
    {
        let arg = &args[i];
        assert(all[i as int] == arg@);
        let flag = match read_flag(arg.as_str()) {
            Some(flag) => flag,
            None => {
                return Err(ArgumentError::Unknown(i));
            },
        };
        if i + 1 >= args.len() {
            return Err(ArgumentError::Incomplete(i));
        }
        let value = &args[i + 1];
        assert(all[i + 1] == value@);
        match flag {
            Flag::Destination => {
                parsed_arguments.destination = value.clone();
            },
            Flag::Threads => {
                match read_decimal(value.as_str().as_bytes(), usize::MAX as u64) {
                    Some(n) => {
                        parsed_arguments.number_of_threads = n as usize;
                    },
                    None => {
                        return Err(ArgumentError::Incomplete(i));
                    },
                }
            },
            Flag::Clankers => {
                match read_decimal(value.as_str().as_bytes(), usize::MAX as u64) {
                    Some(n) => {
                        parsed_arguments.clankers_count = n as usize;
                    },
                    None => {
                        return Err(ArgumentError::Incomplete(i));
                    },
                }
            },
            Flag::NameList => {
                parsed_arguments.name_list = Some(value.clone());
            },
            Flag::MessageList => {
                parsed_arguments.message_list = Some(value.clone());
            },
            Flag::MessageInterval => {
                match read_decimal(value.as_str().as_bytes(), u64::MAX) {
                    Some(n) => {
                        parsed_arguments.message_interval = n;
                    },
                    None => {
                        return Err(ArgumentError::Incomplete(i));
                    },
                }
            },
        }
        i = i + 2;
    }

    Ok(parsed_arguments)
}

/// Checks what the command line alone shows.
fn fleet_checked(arguments: &Arguments) -> (checked: Result<(), ArgumentError>)
    ensures
        checked == check_fleet(arguments@),
{
    if arguments.destination.as_str().is_empty() {
        return Err(ArgumentError::EmptyDestination);
    }
    if arguments.clankers_count == 0 {
        return Err(ArgumentError::NoClankers);
    }
    if arguments.message_interval == 0 {
        return Err(ArgumentError::NoInterval);
    }
    Ok(())
}

/// Checks what is left once the disk has been asked for the list of names.
fn lists_checked(arguments: &Arguments, name_list_exists: bool) -> (checked: Result<
    (),
    ArgumentError,
>)
    ensures
        checked == check_lists(arguments@, name_list_exists),
{
    if arguments.name_list.is_some() && !name_list_exists {
        return Err(ArgumentError::NameListNotFound);
    }
    if arguments.message_list.is_none() {
        return Err(ArgumentError::MissingMessageList);
    }
    if arguments.number_of_threads == 0 {
        return Err(ArgumentError::NoThreads);
    }
    Ok(())
}

/// Says which file the disk has to be asked for before `parse_arguments`
/// can judge the command line: the list of names, where one is given and
/// nothing has failed before it is looked at. Where this is nothing, the
/// answer of the disk plays no part.
pub fn name_list_to_find(args: &Vec<String>, default_threads: usize) -> (path: Option<String>)
    ensures
        match name_list_of(texts(args@), default_threads) {
            Some(text) => path matches Some(found) && found@ == text,
            None => path is None,
        },
{
    match read_flags(args, default_threads) {
        Err(_) => None,
        Ok(flags) => match fleet_checked(&flags) {
            Err(_) => None,
            Ok(()) => flags.name_list,
        },
    }
}

/// Reads the arguments of a command line, the program's own name left out.
/// `default_threads` is the number of threads where no flag sets one, and
/// `name_list_exists` says whether the file of `name_list_to_find` is there.
/// What comes out starts a fleet.
pub fn parse_arguments(
    args: &Vec<String>,
    default_threads: usize,
    name_list_exists: bool,
) -> (parsed: Result<Arguments, ArgumentError>)
    ensures
        match arguments_of(texts(args@), default_threads, name_list_exists) {
            Err(e) => parsed matches Err(f) && f == e,
            Ok(model) => parsed matches Ok(arguments) && arguments@ == model,
        },
        parsed matches Ok(arguments) ==> {
            &&& arguments.destination@.len() > 0
            &&& arguments.number_of_threads > 0
            &&& arguments.clankers_count > 0
            &&& arguments.message_interval > 0
            &&& arguments.message_list is Some
        },
{
    let parsed_arguments = match read_flags(args, default_threads) {
        Ok(flags) => flags,
        Err(e) => {
            return Err(e);
        },
    };
    match fleet_checked(&parsed_arguments) {
        Ok(()) => {},
        Err(e) => {
            return Err(e);
        },
    }
    match lists_checked(&parsed_arguments, name_list_exists) {
        Ok(()) => {},
        Err(e) => {
            return Err(e);
        },
    }
    Ok(parsed_arguments)
}

} // verus!
