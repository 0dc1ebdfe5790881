//! What a command line means, and the order that names are listed in.

use crate::cli;
use crate::cli::Request;
use crate::names;
use vstd::prelude::*;

verus! {

/// Whether the argument at `i` is the value of the option `word` that stands before it.
pub open spec fn is_value(args: Seq<Seq<char>>, word: Seq<char>, i: int) -> bool
    decreases i,
{
    i > 0 && args[i - 1] == word && !is_value(args, word, i - 1)
}

/// Whether the argument at `i`, after the command, is the option `word` itself.
pub open spec fn is_asked(args: Seq<Seq<char>>, word: Seq<char>, i: int) -> bool {
    1 <= i < args.len() && args[i] == word && !is_value(args, word, i)
}

/// Whether the argument at `i`, after the command, is plain: no option, and no option's value.
pub open spec fn is_plain(args: Seq<Seq<char>>, word: Seq<char>, i: int) -> bool {
    1 <= i < args.len() && !is_value(args, word, i) && !(args[i].len() > 0 && args[i][0] == '-')
}

/// Whether the argument at `i`, after the command, is an option that is neither `word` nor `free`.
pub open spec fn is_stray(
    args: Seq<Seq<char>>,
    word: Seq<char>,
    free: Seq<char>,
    i: int,
) -> bool {
    1 <= i < args.len() && !is_value(args, word, i) && args[i].len() > 0 && args[i][0] == '-'
        && args[i] != word && args[i] != free
}

/// There is no option but `word` and `free` before `n`.
pub open spec fn no_stray(args: Seq<Seq<char>>, word: Seq<char>, free: Seq<char>, n: int) -> bool {
    forall|i: int| 0 <= i < n ==> !#[trigger] is_stray(args, word, free, i)
}

/// `d` is the last plain argument before `n`.
pub open spec fn last_plain(args: Seq<Seq<char>>, word: Seq<char>, n: int, d: Seq<char>) -> bool {
    exists|i: int|
        0 <= i < n && #[trigger] is_plain(args, word, i) && args[i] == d && forall|j: int|
            i < j < n ==> !#[trigger] is_plain(args, word, j)
}

/// `v` is the value of the last `word` before `n`.
pub open spec fn last_value(args: Seq<Seq<char>>, word: Seq<char>, n: int, v: Seq<char>) -> bool {
    exists|i: int|
        0 <= i && i + 1 < n && #[trigger] is_asked(args, word, i) && args[i + 1] == v && forall|
            j: int,
        |
            i < j < n ==> !#[trigger] is_asked(args, word, j)
}

/// There is no plain argument before `n`.
pub open spec fn none_plain(args: Seq<Seq<char>>, word: Seq<char>, n: int) -> bool {
    forall|i: int| 0 <= i < n ==> !#[trigger] is_plain(args, word, i)
}

/// The option is not asked for before `n`.
pub open spec fn none_asked(args: Seq<Seq<char>>, word: Seq<char>, n: int) -> bool {
    forall|i: int| 0 <= i < n ==> !#[trigger] is_asked(args, word, i)
}

/// What was read of the arguments before `n`.
spec fn read_to(
    args: Seq<Seq<char>>,
    word: Seq<char>,
    free: Seq<char>,
    n: int,
    plain: Option<Seq<char>>,
    value: Option<Seq<char>>,
) -> bool {
    &&& 1 <= n <= args.len()
    &&& !is_value(args, word, n)
    &&& no_stray(args, word, free, n)
    &&& match plain {
        Some(d) => last_plain(args, word, n, d),
        None => none_plain(args, word, n),
    }
    &&& match value {
        Some(v) => last_value(args, word, n, v),
        None => none_asked(args, word, n),
    }
}

/// After the option and its value.
proof fn lemma_read_value(
    args: Seq<Seq<char>>,
    word: Seq<char>,
    free: Seq<char>,
    n: int,
    plain: Option<Seq<char>>,
    value: Option<Seq<char>>,
)
    requires
        read_to(args, word, free, n, plain, value),
        n + 1 < args.len(),
        args[n] == word,
        word.len() > 0 && word[0] == '-',
    ensures
        read_to(args, word, free, n + 2, plain, Some(args[n + 1])),
{
    assert(is_asked(args, word, n));
    assert(is_value(args, word, n + 1));
    assert(!is_value(args, word, n + 2));
    assert(!is_plain(args, word, n) && !is_plain(args, word, n + 1));
    assert(!is_asked(args, word, n + 1));
    assert(last_value(args, word, n + 2, args[n + 1]));
    assert(no_stray(args, word, free, n + 2)) by {
        assert forall|i: int| 0 <= i < n + 2 implies !#[trigger] is_stray(args, word, free, i) by {
            if i < n {
                assert(!is_stray(args, word, free, i));
            }
        }
    }
    match plain {
        Some(d) => {
            let i = choose|i: int|
                0 <= i < n && #[trigger] is_plain(args, word, i) && args[i] == d && forall|j: int|
                    i < j < n ==> !#[trigger] is_plain(args, word, j);
            assert(is_plain(args, word, i));
            assert(last_plain(args, word, n + 2, d));
        },
        None => {
            assert(none_plain(args, word, n + 2));
        },
    }
}

/// After an argument that is not the option.
proof fn lemma_read_one(
    args: Seq<Seq<char>>,
    word: Seq<char>,
    free: Seq<char>,
    n: int,
    plain: Option<Seq<char>>,
    value: Option<Seq<char>>,
)
    requires
        read_to(args, word, free, n, plain, value),
        n < args.len(),
        args[n] != word,
        args[n] == free || !(args[n].len() > 0 && args[n][0] == '-'),
        free.len() > 0 && free[0] == '-',
    ensures
        read_to(
            args,
            word,
            free,
            n + 1,
            if args[n] == free {
                plain
            } else {
                Some(args[n])
            },
            value,
        ),
{
    assert(!is_value(args, word, n + 1));
    assert(!is_stray(args, word, free, n));
    assert(!is_asked(args, word, n));
    assert(no_stray(args, word, free, n + 1)) by {
        assert forall|i: int| 0 <= i < n + 1 implies !#[trigger] is_stray(args, word, free, i) by {
            if i < n {
                assert(!is_stray(args, word, free, i));
            }
        }
    }
    if args[n] == free {
        assert(!is_plain(args, word, n));
        match plain {
            Some(d) => {
                let i = choose|i: int|
                    0 <= i < n && #[trigger] is_plain(args, word, i) && args[i] == d && forall|
                        j: int,
                    |
                        i < j < n ==> !#[trigger] is_plain(args, word, j);
                assert(is_plain(args, word, i));
                assert(last_plain(args, word, n + 1, d));
            },
            None => {
                assert(none_plain(args, word, n + 1));
            },
        }
    } else {
        assert(is_plain(args, word, n));
        assert(last_plain(args, word, n + 1, args[n]));
    }
    match value {
        Some(v) => {
            let i = choose|i: int|
                0 <= i && i + 1 < n && #[trigger] is_asked(args, word, i) && args[i + 1] == v
                    && forall|j: int| i < j < n ==> !#[trigger] is_asked(args, word, j);
            assert(is_asked(args, word, i));
            assert(last_value(args, word, n + 1, v));
        },
        None => {
            assert(none_asked(args, word, n + 1));
        },
    }
}

/// What an `explain` line asks for.
pub open spec fn explains(args: Seq<Seq<char>>, r: Request) -> bool {
    let word = "--net"@;
    let n = args.len() as int;
    match r {
        Request::Explain(d, v) => {
            &&& no_stray(args, word, word, n)
            &&& !is_asked(args, word, n - 1)
            &&& last_plain(args, word, n, d)
            &&& last_value(args, word, n, v)
        },
        Request::ExplainWithoutNet => {
            &&& no_stray(args, word, word, n)
            &&& !is_asked(args, word, n - 1)
            &&& none_plain(args, word, n) || none_asked(args, word, n)
        },
        Request::MissingName => no_stray(args, word, word, n) && is_asked(args, word, n - 1),
        Request::UnknownOption(o) => exists|i: int| #[trigger]
            is_stray(args, word, word, i) && args[i] == o && no_stray(args, word, word, i),
        _ => false,
    }
}

/// What a `check` line asks for.
pub open spec fn checks(args: Seq<Seq<char>>, r: Request) -> bool {
    let word = "-o"@;
    let free = "--json"@;
    let n = args.len() as int;
    match r {
        Request::Check(d, out) => {
            &&& no_stray(args, word, free, n)
            &&& !is_asked(args, word, n - 1)
            &&& last_plain(args, word, n, d)
            &&& match out {
                Some(f) => last_value(args, word, n, f),
                None => none_asked(args, word, n),
            }
        },
        Request::CheckWithoutDatabase => {
            &&& no_stray(args, word, free, n)
            &&& !is_asked(args, word, n - 1)
            &&& none_plain(args, word, n)
        },
        Request::MissingFile => no_stray(args, word, free, n) && is_asked(args, word, n - 1),
        Request::UnknownOption(o) => exists|i: int| #[trigger]
            is_stray(args, word, free, i) && args[i] == o && no_stray(args, word, free, i),
        _ => false,
    }
}

/// The end of the line is not an option that lacks its value.
proof fn lemma_read_all(
    args: Seq<Seq<char>>,
    word: Seq<char>,
    free: Seq<char>,
    plain: Option<Seq<char>>,
    value: Option<Seq<char>>,
)
    requires
        read_to(args, word, free, args.len() as int, plain, value),
    ensures
        !is_asked(args, word, args.len() - 1),
{
    let n = args.len() as int;
    if is_asked(args, word, n - 1) {
        assert(is_value(args, word, n));
    }
}

proof fn lemma_explain(
    args: Seq<Seq<char>>,
    n: int,
    odb: Option<Seq<char>>,
    net: Option<Seq<char>>,
)
    requires
        read_to(args, "--net"@, "--net"@, n, odb, net),
    ensures
        explains(args, cli::explain_request(args.skip(n), odb, net)),
    decreases args.len() - n,
{
    let word = "--net"@;
    reveal_strlit("--net");
    let rest = args.skip(n);
    if n == args.len() {
        lemma_read_all(args, word, word, odb, net);
    } else {
        assert(rest[0] == args[n]);
        if args[n] == word {
            assert(is_asked(args, word, n));
            if n + 1 == args.len() {
            } else {
                assert(rest[1] == args[n + 1]);
                assert(rest.skip(2) =~= args.skip(n + 2));
                lemma_read_value(args, word, word, n, odb, net);
                lemma_explain(args, n + 2, odb, Some(args[n + 1]));
            }
        } else if args[n].len() > 0 && args[n][0] == '-' {
            assert(is_stray(args, word, word, n));
        } else {
            assert(rest.skip(1) =~= args.skip(n + 1));
            lemma_read_one(args, word, word, n, odb, net);
            lemma_explain(args, n + 1, Some(args[n]), net);
        }
    }
}

proof fn lemma_check(
    args: Seq<Seq<char>>,
    n: int,
    odb: Option<Seq<char>>,
    out: Option<Seq<char>>,
)
    requires
        read_to(args, "-o"@, "--json"@, n, odb, out),
    ensures
        checks(args, cli::check_request(args.skip(n), odb, out)),
    decreases args.len() - n,
{
    let word = "-o"@;
    let free = "--json"@;
    reveal_strlit("-o");
    reveal_strlit("--json");
    let rest = args.skip(n);
    if n == args.len() {
        lemma_read_all(args, word, free, odb, out);
    } else {
        assert(rest[0] == args[n]);
        if args[n] == word {
            assert(is_asked(args, word, n));
            if n + 1 == args.len() {
            } else {
                assert(rest[1] == args[n + 1]);
                assert(rest.skip(2) =~= args.skip(n + 2));
                lemma_read_value(args, word, free, n, odb, out);
                lemma_check(args, n + 2, odb, Some(args[n + 1]));
            }
        } else if args[n] == free {
            assert(word.len() != free.len());
            assert(rest.skip(1) =~= args.skip(n + 1));
            lemma_read_one(args, word, free, n, odb, out);
            lemma_check(args, n + 1, odb, out);
        } else if args[n].len() > 0 && args[n][0] == '-' {
            assert(is_stray(args, word, free, n));
        } else {
            assert(rest.skip(1) =~= args.skip(n + 1));
            lemma_read_one(args, word, free, n, odb, out);
            lemma_check(args, n + 1, Some(args[n]), out);
        }
    }
}

/// No argument asks for a description or for the usage.
pub open spec fn asks_for_work(args: Seq<Seq<char>>) -> bool {
    &&& args.len() > 0
    &&& forall|i: int|
        0 <= i < args.len() ==> (#[trigger] args[i]) != "--describe"@ && args[i] != "--help"@
            && args[i] != "-h"@
}

proof fn lemma_asks_for_work(args: Seq<Seq<char>>)
    requires
        asks_for_work(args),
    ensures
        !args.contains("--describe"@),
        !args.contains("--help"@),
        !args.contains("-h"@),
{
}

/// `explain` takes the last plain argument for its database and the value of the last `--net` for
/// its net, in whatever order they stand. It is refused for the first option that it does not
/// know, for a `--net` at the end, and where a database or a net is not named; and for nothing
/// else.
pub proof fn explain_takes_the_last_database_and_the_last_net(args: Seq<Seq<char>>)
    requires
        asks_for_work(args),
        args[0] == "explain"@,
    ensures
        explains(args, cli::request(args)),
{
    let word = "--net"@;
    reveal_strlit("--net");
    reveal_strlit("explain");
    lemma_asks_for_work(args);
    assert("explain"@.len() != word.len());
    assert(!is_value(args, word, 0));
    assert(!is_value(args, word, 1));
    assert(read_to(args, word, word, 1, None, None)) by {
        assert(!is_stray(args, word, word, 0));
        assert(!is_plain(args, word, 0));
        assert(!is_asked(args, word, 0));
    }
    lemma_explain(args, 1, None, None);
}

/// `check` takes the last plain argument for its database and the value of the last `-o` for its
/// file, in whatever order they stand, and `--json` changes nothing. It is refused for the first
/// option that it does not know, for a `-o` at the end, and where no database is named; and for
/// nothing else.
pub proof fn check_takes_the_last_database_and_the_last_file(args: Seq<Seq<char>>)
    requires
        asks_for_work(args),
        args[0] == "check"@,
    ensures
        checks(args, cli::request(args)),
{
    let word = "-o"@;
    let free = "--json"@;
    reveal_strlit("-o");
    reveal_strlit("check");
    reveal_strlit("explain");
    lemma_asks_for_work(args);
    assert("check"@.len() != "explain"@.len());
    assert("check"@.len() != word.len());
    assert(!is_value(args, word, 0));
    assert(!is_value(args, word, 1));
    assert(read_to(args, word, free, 1, None, None)) by {
        assert(!is_stray(args, word, free, 0));
        assert(!is_plain(args, word, 0));
        assert(!is_asked(args, word, 0));
    }
    lemma_check(args, 1, None, None);
}

/// Whether one of the arguments is the word.
pub open spec fn says(args: Seq<Seq<char>>, word: Seq<char>) -> bool {
    exists|i: int| 0 <= i < args.len() && #[trigger] args[i] == word
}

/// A description is asked for anywhere on the line, and goes before everything; so does the usage
/// after it. An empty line asks for nothing, and the first argument is the command.
pub proof fn the_first_argument_is_the_command(args: Seq<Seq<char>>)
    ensures
        says(args, "--describe"@) <==> cli::request(args) is Describe,
        args.len() == 0 <==> cli::request(args) is Nothing,
        !says(args, "--describe"@) && (says(args, "--help"@) || says(args, "-h"@))
            <==> cli::request(args) is Help,
        asks_for_work(args) && args[0] != "explain"@ && args[0] != "check"@ ==> cli::request(args)
            == Request::UnknownCommand(args[0]),
        asks_for_work(args) && args[0] == "explain"@ ==> !(cli::request(args) is Check) && !(
        cli::request(args) is UnknownCommand),
        asks_for_work(args) && args[0] == "check"@ ==> !(cli::request(args) is Explain) && !(
        cli::request(args) is UnknownCommand),
{
    reveal_strlit("check");
    reveal_strlit("explain");
    assert("check"@.len() != "explain"@.len());
    assert(says(args, "--describe"@) <==> args.contains("--describe"@));
    assert(says(args, "--help"@) <==> args.contains("--help"@));
    assert(says(args, "-h"@) <==> args.contains("-h"@));
    if asks_for_work(args) {
        if args[0] == "explain"@ {
            explain_takes_the_last_database_and_the_last_net(args);
        } else if args[0] == "check"@ {
            check_takes_the_last_database_and_the_last_file(args);
        }
    } else if args.len() > 0 {
        let i = choose|i: int|
            0 <= i < args.len() && ((#[trigger] args[i]) == "--describe"@ || args[i] == "--help"@
                || args[i] == "-h"@);
        assert(args.contains(args[i]));
    }
}

/// Both documented orders of an `explain` line mean the same.
pub proof fn explain_in_either_order(d: Seq<char>, n: Seq<char>)
    requires
        !(d.len() > 0 && d[0] == '-'),
        n != "--describe"@ && n != "--help"@ && n != "-h"@,
    ensures
        cli::request(seq!["explain"@, d, "--net"@, n]) == Request::Explain(d, n),
        cli::request(seq!["explain"@, "--net"@, n, d]) == Request::Explain(d, n),
{
    reveal_strlit("--net");
    reveal_strlit("explain");
    reveal_strlit("--describe");
    reveal_strlit("--help");
    reveal_strlit("-h");
    let word = "--net"@;
    assert("--describe"@[0] == '-' && "--help"@[0] == '-' && "-h"@[0] == '-');
    assert("explain"@[0] != '-' && word[0] == '-');
    assert(d != word && "explain"@ != word);
    assert(word.len() != "--describe"@.len() && word.len() != "--help"@.len() && word.len()
        != "-h"@.len());
    let a = seq!["explain"@, d, word, n];
    let b = seq!["explain"@, word, n, d];
    assert(asks_for_work(a) && asks_for_work(b));
    explain_takes_the_last_database_and_the_last_net(a);
    explain_takes_the_last_database_and_the_last_net(b);
    assert(a[0] == "explain"@ && a[1] == d && a[2] == word && a[3] == n);
    assert(b[0] == "explain"@ && b[1] == word && b[2] == n && b[3] == d);
    assert(!is_value(a, word, 0));
    assert(!is_value(a, word, 1));
    assert(!is_value(a, word, 2));
    assert(is_value(a, word, 3));
    assert(is_plain(a, word, 1) && is_asked(a, word, 2));
    assert(!is_value(b, word, 0));
    assert(!is_value(b, word, 1));
    assert(is_value(b, word, 2));
    assert(!is_value(b, word, 3));
    assert(is_plain(b, word, 3) && is_asked(b, word, 1));
    assert(!is_stray(a, word, word, 1) && !is_stray(a, word, word, 2) && !is_stray(a, word, word, 3));
    assert(!is_stray(b, word, word, 1) && !is_stray(b, word, word, 2) && !is_stray(b, word, word, 3));
    assert(!is_plain(a, word, 2) && !is_plain(a, word, 3) && !is_plain(b, word, 1) && !is_plain(
        b,
        word,
        2,
    ));
    assert(!is_asked(a, word, 1) && !is_asked(a, word, 3) && !is_asked(b, word, 2) && !is_asked(
        b,
        word,
        3,
    ));
    match cli::request(a) {
        Request::Explain(x, y) => {
            let i = choose|i: int|
                0 <= i < 4 && #[trigger] is_plain(a, word, i) && a[i] == x && forall|j: int|
                    i < j < 4 ==> !#[trigger] is_plain(a, word, j);
            assert(i == 1);
            let k = choose|k: int|
                0 <= k && k + 1 < 4 && #[trigger] is_asked(a, word, k) && a[k + 1] == y && forall|
                    j: int,
                |
                    k < j < 4 ==> !#[trigger] is_asked(a, word, j);
            assert(k == 2);
        },
        _ => {},
    }
    match cli::request(b) {
        Request::Explain(x, y) => {
            let i = choose|i: int|
                0 <= i < 4 && #[trigger] is_plain(b, word, i) && b[i] == x && forall|j: int|
                    i < j < 4 ==> !#[trigger] is_plain(b, word, j);
            assert(i == 3);
            let k = choose|k: int|
                0 <= k && k + 1 < 4 && #[trigger] is_asked(b, word, k) && b[k + 1] == y && forall|
                    j: int,
                |
                    k < j < 4 ==> !#[trigger] is_asked(b, word, j);
            assert(k == 1);
        },
        _ => {},
    }
}

/// The order of names is that of a dictionary: the first character in which two names differ
/// decides, a name comes before every longer one that begins with it, and none before itself.
pub proof fn names_are_in_dictionary_order(
    p: Seq<char>,
    c: char,
    d: char,
    s: Seq<char>,
    t: Seq<char>,
)
    ensures
        c != d ==> (names::text_less(p + seq![c] + s, p + seq![d] + t) <==> c < d),
        names::text_less(p, p + seq![c] + s),
        !names::text_less(p + seq![c] + s, p),
        !names::text_less(p, p),
{
    let n = p.len() as int;
    let a = p + seq![c] + s;
    let b = p + seq![d] + t;
    assert(a[n] == c && b[n] == d);
    if c < d {
        assert(names::parts_at(a, b, n));
    }
    if c != d && names::text_less(a, b) {
        let k = choose|k: int| names::parts_at(a, b, k);
        if k < n {
            assert(a[k] == p[k] && b[k] == p[k]);
        }
        if k > n {
            assert(a[n] == b[n]);
        }
    }
    assert(names::parts_at(p, a, n));
    if names::text_less(a, p) {
        let k = choose|k: int| names::parts_at(a, p, k);
        assert(a[k] == p[k]);
    }
}

/// A terminal's name is split at its last slash: the instance is what is before it, slashes and
/// all, and the pin what is after it.
pub proof fn a_name_is_split_at_its_last_slash(
    name: Seq<char>,
    inst: Seq<char>,
    pin: Seq<char>,
    k: int,
)
    requires
        names::splits(name, inst, pin),
    ensures
        0 <= k < name.len() && name[k] == '/' && (forall|j: int|
            k < j < name.len() ==> name[j] != '/') ==> inst == name.take(k) && pin == name.skip(
            k + 1,
        ),
        exists|j: int| 0 <= j < name.len() && #[trigger] name[j] == '/' && j == inst.len(),
{
    let at = inst.len() as int;
    assert(name[at] == '/');
    assert forall|j: int| at < j < name.len() implies name[j] != '/' by {
        assert(name[j] == pin[j - at - 1]);
        assert(pin.contains(pin[j - at - 1]));
    }
    if 0 <= k < name.len() && name[k] == '/' && (forall|j: int|
        k < j < name.len() ==> name[j] != '/') {
        assert(k == at);
        assert(inst =~= name.take(k));
        assert(pin =~= name.skip(k + 1));
    }
}

} // verus!
