//! What a command line asks for.

use crate::net;
use vstd::prelude::*;
use vstd::string::*;

verus! {

/// One request, or what is wrong with it.
#[derive(Debug, Clone)]
pub enum Command {
    /// Print the machine-readable description.
    Describe,
    /// Print the usage.
    Help,
    /// Nothing was asked for.
    Nothing,
    /// Check the database, and write the report to the file if one is named.
    Check(String, Option<String>),
    /// Show what the check reads of one net of the database.
    Explain(String, String),
    UnknownCommand(String),
    UnknownOption(String),
    /// `-o` is the last argument.
    MissingFile,
    /// `--net` is the last argument.
    MissingName,
    /// `check` names no database.
    CheckWithoutDatabase,
    /// `explain` names no database or no net.
    ExplainWithoutNet,
}

/// What a request says.
pub enum Request {
    Describe,
    Help,
    Nothing,
    Check(Seq<char>, Option<Seq<char>>),
    Explain(Seq<char>, Seq<char>),
    UnknownCommand(Seq<char>),
    UnknownOption(Seq<char>),
    MissingFile,
    MissingName,
    CheckWithoutDatabase,
    ExplainWithoutNet,
}

/// The text of an optional argument.
pub open spec fn text_of(s: Option<String>) -> Option<Seq<char>> {
    match s {
        Some(x) => Some(x@),
        None => None,
    }
}

impl View for Command {
    type V = Request;

    open spec fn view(&self) -> Request {
        match *self {
            Command::Describe => Request::Describe,
            Command::Help => Request::Help,
            Command::Nothing => Request::Nothing,
            Command::Check(d, o) => Request::Check(d@, text_of(o)),
            Command::Explain(d, n) => Request::Explain(d@, n@),
            Command::UnknownCommand(c) => Request::UnknownCommand(c@),
            Command::UnknownOption(o) => Request::UnknownOption(o@),
            Command::MissingFile => Request::MissingFile,
            Command::MissingName => Request::MissingName,
            Command::CheckWithoutDatabase => Request::CheckWithoutDatabase,
            Command::ExplainWithoutNet => Request::ExplainWithoutNet,
        }
    }
}

/// Whether the argument has the form of an option.
pub open spec fn is_option(a: Seq<char>) -> bool {
    a.len() > 0 && a[0] == '-'
}

/// What `check` is asked for by the arguments left, with what the ones before named. The last
/// database and the last file named hold, and `--json` changes nothing.
pub open spec fn check_request(
    args: Seq<Seq<char>>,
    odb: Option<Seq<char>>,
    out: Option<Seq<char>>,
) -> Request
    decreases args.len(),
{
    if args.len() == 0 {
        match odb {
            Some(d) => Request::Check(d, out),
            None => Request::CheckWithoutDatabase,
        }
    } else if args[0] == "-o"@ {
        if args.len() == 1 {
            Request::MissingFile
        } else {
            check_request(args.skip(2), odb, Some(args[1]))
        }
    } else if args[0] == "--json"@ {
        check_request(args.skip(1), odb, out)
    } else if is_option(args[0]) {
        Request::UnknownOption(args[0])
    } else {
        check_request(args.skip(1), Some(args[0]), out)
    }
}

/// What `explain` is asked for by the arguments left, with what the ones before named.
pub open spec fn explain_request(
    args: Seq<Seq<char>>,
    odb: Option<Seq<char>>,
    net: Option<Seq<char>>,
) -> Request
    decreases args.len(),
{
    if args.len() == 0 {
        match (odb, net) {
            (Some(d), Some(n)) => Request::Explain(d, n),
            _ => Request::ExplainWithoutNet,
        }
    } else if args[0] == "--net"@ {
        if args.len() == 1 {
            Request::MissingName
        } else {
            explain_request(args.skip(2), odb, Some(args[1]))
        }
    } else if is_option(args[0]) {
        Request::UnknownOption(args[0])
    } else {
        explain_request(args.skip(1), Some(args[0]), net)
    }
}

/// What the arguments ask for. A description or the usage is asked for anywhere.
pub open spec fn request(args: Seq<Seq<char>>) -> Request {
    if args.contains("--describe"@) {
        Request::Describe
    } else if args.len() == 0 {
        Request::Nothing
    } else if args.contains("--help"@) || args.contains("-h"@) {
        Request::Help
    } else if args[0] == "explain"@ {
        explain_request(args.skip(1), None, None)
    } else if args[0] == "check"@ {
        check_request(args.skip(1), None, None)
    } else {
        Request::UnknownCommand(args[0])
    }
}

/// Whether the argument is the given word.
fn is_word(a: &String, word: &str) -> (b: bool)
    ensures
        b == (a@ == word@),
{
    let s = a.as_str();
    let n: usize = s.unicode_len();
    if n != word.unicode_len() {
        return false;
    }
    let mut k: usize = 0;
    while k < n
        invariant
            s@ == a@,
            n == s@.len(),
            n == word@.len(),
            k <= n,
            forall|j: int| 0 <= j < k ==> s@[j] == word@[j],
        decreases n - k,
    {
        if s.get_char(k) != word.get_char(k) {
            return false;
        }
        k += 1;
    }
    assert(s@ =~= word@);
    true
}

/// Whether the argument has the form of an option.
fn has_dash(a: &String) -> (b: bool)
    ensures
        b == is_option(a@),
{
    a.as_str().unicode_len() > 0 && a.as_str().get_char(0) == '-'
}

/// Whether the word is one of the arguments.
fn any_word(args: &[String], word: &str) -> (b: bool)
    ensures
        b == net::texts(args@).contains(word@),
{
    let ghost all = net::texts(args@);
    let mut k: usize = 0;
    while k < args.len()
        invariant
            k <= args@.len(),
            all == net::texts(args@),
            forall|j: int| 0 <= j < k ==> all[j] != word@,
        decreases args@.len() - k,
    {
        if is_word(&args[k], word) {
            assert(all[k as int] == word@);
            return true;
        }
        k += 1;
    }
    false
}

/// Read the arguments of `check`.
fn parse_check(args: &[String]) -> (c: Command)
    requires
        args@.len() > 0,
    ensures
        c@ == check_request(net::texts(args@).skip(1), None, None),
{
    let ghost all = net::texts(args@);
    let mut odb: Option<String> = None;
    let mut out: Option<String> = None;
    let mut i: usize = 1;
    while i < args.len()
        invariant
            1 <= i <= args@.len(),
            all == net::texts(args@),
            check_request(all.skip(1), None, None) == check_request(
                all.skip(i as int),
                text_of(odb),
                text_of(out),
            ),
        decreases args@.len() - i,
    {
        let a = &args[i];
        assert(all.skip(i as int)[0] == a@);
        assert(all.skip(i as int).skip(1) =~= all.skip(i + 1));
        if is_word(a, "-o") {
            i += 1;
            if i == args.len() {
                return Command::MissingFile;
            }
            assert(all.skip(i - 1).skip(2) =~= all.skip(i + 1));
            assert(all.skip(i - 1)[1] == args@[i as int]@);
            out = Some(args[i].clone());
        } else if is_word(a, "--json") {
            // The only format today; accepted so callers can be explicit.
        } else if has_dash(a) {
            return Command::UnknownOption(a.clone());
        } else {
            odb = Some(a.clone());
        }
        i += 1;
    }
    match odb {
        Some(d) => Command::Check(d, out),
        None => Command::CheckWithoutDatabase,
    }
}

/// Read the arguments of `explain`.
fn parse_explain(args: &[String]) -> (c: Command)
    requires
        args@.len() > 0,
    ensures
        c@ == explain_request(net::texts(args@).skip(1), None, None),
{
    let ghost all = net::texts(args@);
    let mut odb: Option<String> = None;
    let mut name: Option<String> = None;
    let mut i: usize = 1;
    while i < args.len()
        invariant
            1 <= i <= args@.len(),
            all == net::texts(args@),
            explain_request(all.skip(1), None, None) == explain_request(
                all.skip(i as int),
                text_of(odb),
                text_of(name),
            ),
        decreases args@.len() - i,
    {
        let a = &args[i];
        assert(all.skip(i as int)[0] == a@);
        assert(all.skip(i as int).skip(1) =~= all.skip(i + 1));
        if is_word(a, "--net") {
            i += 1;
            if i == args.len() {
                return Command::MissingName;
            }
            assert(all.skip(i - 1).skip(2) =~= all.skip(i + 1));
            assert(all.skip(i - 1)[1] == args@[i as int]@);
            name = Some(args[i].clone());
        } else if has_dash(a) {
            return Command::UnknownOption(a.clone());
        } else {
            odb = Some(a.clone());
        }
        i += 1;
    }
    match (odb, name) {
        (Some(d), Some(n)) => Command::Explain(d, n),
        _ => Command::ExplainWithoutNet,
    }
}

/// Read the arguments that follow the name of the program.
pub fn parse(args: &[String]) -> (c: Command)
    ensures
        c@ == request(net::texts(args@)),
{
    if any_word(args, "--describe") {
        return Command::Describe;
    }
    if args.len() == 0 {
        return Command::Nothing;
    }
    if any_word(args, "--help") || any_word(args, "-h") {
        return Command::Help;
    }
    if is_word(&args[0], "explain") {
        return parse_explain(args);
    }
    if is_word(&args[0], "check") {
        return parse_check(args);
    }
    Command::UnknownCommand(args[0].clone())
}

} // verus!
