//! What the arguments ask for, however many there are.
use crate::a1::{cell_of, column_list, range_of, Address};
use crate::cli::{
    arg_view, columns_view, kind_of, meaning, no_options, option_of, outcome, step, Arg, ArgView,
    Command, Kind, Open, OptionsView, Step,
};
use crate::error::Error;
use crate::json::Json;
use crate::ops::{edits_view, patch_edits};
use crate::text::{all_digits, number};
use vstd::prelude::*;

verus! {

/// How many arguments an option is, with those that belong to it.
pub open spec fn takes(t: Seq<char>) -> int {
    if t == "--set"@ {
        3
    } else if t == "--sheet"@ || t == "--sort"@ || t == "--find"@ || t == "--columns"@ || t
        == "--from"@ || t == "--limit"@ || t == "--read"@ || t == "--apply"@ || t == "-o"@ || t
        == "--output"@ || t == "-d"@ || t == "--delimiter"@ {
        2
    } else {
        1
    }
}

/// The options and files begin at these arguments, one behind another up to the end.
pub open spec fn are_starts(args: Seq<Arg>, starts: Seq<int>) -> bool {
    &&& starts.len() > 0
    &&& starts[0] == 0
    &&& starts.last() == args.len()
    &&& forall|k: int|
        0 <= k < starts.len() - 1 ==> 0 <= #[trigger] starts[k] < args.len() && starts[k + 1]
            == starts[k] + (match args[starts[k]]@ {
            ArgView::Text(t) => takes(t),
            ArgView::Bytes(_) => 1,
        })
}

/// The option at a start has this name.
pub open spec fn is_named(args: Seq<Arg>, starts: Seq<int>, k: int, name: Seq<char>) -> bool {
    0 <= k < starts.len() - 1 && args[starts[k]]@ == ArgView::Text(name)
}

/// Some option has this name.
pub open spec fn is_given(args: Seq<Arg>, starts: Seq<int>, name: Seq<char>) -> bool {
    exists|k: int| #[trigger] is_named(args, starts, k, name)
}

/// The option at a start has this name or the other.
pub open spec fn is_either(
    args: Seq<Arg>,
    starts: Seq<int>,
    k: int,
    name: Seq<char>,
    other: Seq<char>,
) -> bool {
    is_named(args, starts, k, name) || is_named(args, starts, k, other)
}

/// The last option of this name or the other.
pub open spec fn is_last(
    args: Seq<Arg>,
    starts: Seq<int>,
    k: int,
    name: Seq<char>,
    other: Seq<char>,
) -> bool {
    &&& is_either(args, starts, k, name, other)
    &&& forall|j: int| k < j ==> !#[trigger] is_either(args, starts, j, name, other)
}

/// The text of an argument.
pub open spec fn word(args: Seq<Arg>, i: int) -> Seq<char> {
    args[i]@->Text_0
}

/// The edits with those that the option at `i` adds.
pub open spec fn with_edits(
    args: Seq<Arg>,
    patches: Seq<Result<Json, String>>,
    i: int,
    edits: Seq<(Address, Seq<char>)>,
    applied: int,
) -> Seq<(Address, Seq<char>)> {
    if args[i]@ == ArgView::Text("--set"@) {
        edits.push((cell_of(word(args, i + 1))->Ok_0, word(args, i + 2)))
    } else if args[i]@ == ArgView::Text("--apply"@) {
        edits + patch_edits(patches[applied]->Ok_0)->Ok_0
    } else {
        edits
    }
}

/// The edits before each option, and how many patches were applied before it.
pub open spec fn are_edits(
    args: Seq<Arg>,
    patches: Seq<Result<Json, String>>,
    starts: Seq<int>,
    edits: Seq<Seq<(Address, Seq<char>)>>,
    applied: Seq<int>,
) -> bool {
    &&& edits.len() == starts.len()
    &&& applied.len() == starts.len()
    &&& edits[0] == Seq::<(Address, Seq<char>)>::empty()
    &&& applied[0] == 0
    &&& forall|k: int|
        0 <= k < starts.len() - 1 ==> #[trigger] edits[k + 1] == with_edits(
            args,
            patches,
            starts[k],
            edits[k],
            applied[k],
        )
    &&& forall|k: int|
        0 <= k < starts.len() - 1 ==> #[trigger] applied[k + 1] == applied[k] + (
        if args[starts[k]]@ == ArgView::Text("--apply"@) {
            1int
        } else {
            0
        })
}

proof fn strings()
    ensures
        option_of("--"@) is Separator,
        option_of("-h"@) is Help,
        option_of("--help"@) is Help,
        option_of("--check"@) is Check,
        option_of("--sheets"@) is Sheets,
        option_of("--sheet"@) is Sheet,
        option_of("--sort"@) is Sort,
        option_of("--no-header"@) is NoHeader,
        option_of("--dry-run"@) is DryRun,
        option_of("--find"@) is Find,
        option_of("--exact"@) is Exact,
        option_of("--ignore-case"@) is IgnoreCase,
        option_of("--columns"@) is Columns,
        option_of("--from"@) is From,
        option_of("--limit"@) is Limit,
        option_of("--read"@) is Read,
        option_of("--set"@) is SetCell,
        option_of("--apply"@) is Apply,
        option_of("-o"@) is Output,
        option_of("--output"@) is Output,
        option_of("-d"@) is Delimiter,
        option_of("--delimiter"@) is Delimiter,
{
    reveal_strlit("--");
    reveal_strlit("-h");
    reveal_strlit("--help");
    reveal_strlit("--check");
    reveal_strlit("--sheets");
    reveal_strlit("--sheet");
    reveal_strlit("--sort");
    reveal_strlit("--no-header");
    reveal_strlit("--dry-run");
    reveal_strlit("--find");
    reveal_strlit("--exact");
    reveal_strlit("--ignore-case");
    reveal_strlit("--columns");
    reveal_strlit("--from");
    reveal_strlit("--limit");
    reveal_strlit("--read");
    reveal_strlit("--set");
    reveal_strlit("--apply");
    reveal_strlit("-o");
    reveal_strlit("--output");
    reveal_strlit("-d");
    reveal_strlit("--delimiter");
    assert("--"@.len() == 2 && "--"@[1] == '-');
    assert("-h"@.len() == 2 && "-h"@[1] == 'h');
    assert("--help"@.len() == 6 && "--help"@[2] == 'h');
    assert("--check"@.len() == 7 && "--check"@[2] == 'c');
    assert("--sheets"@.len() == 8 && "--sheets"@[2] == 's');
    assert("--sheet"@.len() == 7 && "--sheet"@[2] == 's');
    assert("--sort"@.len() == 6 && "--sort"@[2] == 's');
    assert("--no-header"@.len() == 11 && "--no-header"@[2] == 'n');
    assert("--dry-run"@.len() == 9 && "--dry-run"@[2] == 'd');
    assert("--find"@.len() == 6 && "--find"@[2] == 'f' && "--find"@[3] == 'i');
    assert("--exact"@.len() == 7 && "--exact"@[2] == 'e');
    assert("--ignore-case"@.len() == 13 && "--ignore-case"@[2] == 'i');
    assert("--columns"@.len() == 9 && "--columns"@[2] == 'c');
    assert("--from"@.len() == 6 && "--from"@[2] == 'f' && "--from"@[3] == 'r');
    assert("--limit"@.len() == 7 && "--limit"@[2] == 'l');
    assert("--read"@.len() == 6 && "--read"@[2] == 'r');
    assert("--set"@.len() == 5 && "--set"@[2] == 's');
    assert("--apply"@.len() == 7 && "--apply"@[2] == 'a');
    assert("-o"@.len() == 2 && "-o"@[1] == 'o');
    assert("--output"@.len() == 8 && "--output"@[2] == 'o');
    assert("-d"@.len() == 2 && "-d"@[1] == 'd');
    assert("--delimiter"@.len() == 11 && "--delimiter"@[2] == 'd');
}

spec fn kind_at(args: Seq<Arg>, starts: Seq<int>, k: int) -> Kind {
    kind_of(args[starts[k]]@, false)
}

/// The last of the first `k` options that is of this kind.
spec fn last_of(args: Seq<Arg>, starts: Seq<int>, k: int, kind: Kind) -> Option<int>
    decreases k,
{
    if k <= 0 {
        None
    } else if kind_at(args, starts, k - 1) == kind {
        Some(k - 1)
    } else {
        last_of(args, starts, k - 1, kind)
    }
}

/// The words after the last option of this kind, if there is one.
spec fn word_of(args: Seq<Arg>, starts: Seq<int>, k: int, kind: Kind) -> Option<Seq<char>> {
    match last_of(args, starts, k, kind) {
        Some(j) => Some(word(args, starts[j] + 1)),
        None => None,
    }
}

spec fn is_state(args: Seq<Arg>, starts: Seq<int>, k: int, o: OptionsView) -> bool {
    &&& !o.positional
    &&& o.check == last_of(args, starts, k, Kind::Check) is Some
    &&& o.sheets == last_of(args, starts, k, Kind::Sheets) is Some
    &&& o.dry_run == last_of(args, starts, k, Kind::DryRun) is Some
    &&& o.exact == last_of(args, starts, k, Kind::Exact) is Some
    &&& o.ignore_case == last_of(args, starts, k, Kind::IgnoreCase) is Some
    &&& o.header == last_of(args, starts, k, Kind::NoHeader) is None
    &&& o.sheet == word_of(args, starts, k, Kind::Sheet)
    &&& o.sort == word_of(args, starts, k, Kind::Sort)
    &&& o.find == word_of(args, starts, k, Kind::Find)
    &&& match word_of(args, starts, k, Kind::Columns) {
        Some(t) => o.columns == Some(column_list(t)),
        None => o.columns is None,
    }
    &&& match word_of(args, starts, k, Kind::From) {
        Some(t) => o.from is Some && cell_of(t) == Ok::<Address, crate::a1::A1Error>(o.from->0),
        None => o.from is None,
    }
    &&& match word_of(args, starts, k, Kind::Limit) {
        Some(t) => o.limit is Some && o.limit == crate::cli::limit_of(t),
        None => o.limit is None,
    }
    &&& match word_of(args, starts, k, Kind::Read) {
        Some(t) => o.read is Some && range_of(t) == Ok::<
            crate::a1::Range,
            crate::a1::A1Error,
        >(o.read->0),
        None => o.read is None,
    }
    &&& match word_of(args, starts, k, Kind::Delimiter) {
        Some(t) => Some(o.delimiter) == crate::cli::delimiter_of(t),
        None => o.delimiter == 44,
    }
    &&& o.output == match last_of(args, starts, k, Kind::Output) {
        Some(j) => Some(args[starts[j] + 1]@),
        None => None,
    }
    &&& o.path == match last_of(args, starts, k, Kind::File) {
        Some(j) => Some(args[starts[j]]@),
        None => None,
    }
}

/// How many arguments options of a kind are.
spec fn width(kind: Kind) -> int {
    match kind {
        Kind::SetCell => 3,
        Kind::Sheet | Kind::Sort | Kind::Find | Kind::Columns | Kind::From | Kind::Limit
        | Kind::Read | Kind::Apply | Kind::Output | Kind::Delimiter => 2,
        _ => 1,
    }
}

proof fn kinds_go_by_name(arg: ArgView)
    ensures
        width(kind_of(arg, false)) == (match arg {
            ArgView::Text(t) => takes(t),
            ArgView::Bytes(_) => 1,
        }),
        kind_of(arg, false) is SetCell <==> arg == ArgView::Text("--set"@),
        kind_of(arg, false) is Apply <==> arg == ArgView::Text("--apply"@),
        kind_of(arg, false) is Separator <==> arg == ArgView::Text("--"@),
{
    strings();
}

proof fn last_grows(args: Seq<Arg>, starts: Seq<int>, k: int)
    requires
        0 <= k,
    ensures
        forall|kind: Kind| #[trigger]
            last_of(args, starts, k + 1, kind) == if kind_at(args, starts, k) == kind {
                Some(k)
            } else {
                last_of(args, starts, k, kind)
            },
{
}

#[verifier::rlimit(60)]
#[verifier::spinoff_prover]
proof fn one_step(
    args: Seq<Arg>,
    patches: Seq<Result<Json, String>>,
    starts: Seq<int>,
    k: int,
    o: OptionsView,
    next: OptionsView,
    j: int,
)
    requires
        0 <= k < starts.len() - 1,
        0 <= starts[k] < args.len(),
        kind_at(args, starts, k) !is Separator,
        is_state(args, starts, k, o),
        step(args, patches, starts[k], o) == Step::Next(next, j),
    ensures
        is_state(args, starts, k + 1, next),
{
    last_grows(args, starts, k);
    let kind = kind_at(args, starts, k);
    assert(kind == kind_of(args[starts[k]]@, o.positional));
    match kind {
        Kind::Check => {},
        Kind::Sheets => {},
        Kind::Sheet => {},
        Kind::Sort => {},
        Kind::NoHeader => {},
        Kind::DryRun => {},
        Kind::Find => {},
        Kind::Exact => {},
        Kind::IgnoreCase => {},
        Kind::Columns => {},
        Kind::From => {},
        Kind::Limit => {},
        Kind::Read => {},
        Kind::SetCell => {},
        Kind::Apply => {},
        Kind::Output => {},
        Kind::Delimiter => {},
        Kind::File => {},
        _ => {},
    }
}

proof fn one_option(
    args: Seq<Arg>,
    patches: Seq<Result<Json, String>>,
    starts: Seq<int>,
    k: int,
    o: OptionsView,
) -> (next: OptionsView)
    requires
        are_starts(args, starts),
        0 <= k < starts.len() - 1,
        !is_named(args, starts, k, "--"@),
        is_state(args, starts, k, o),
        outcome(args, patches, starts[k], o) is Open,
    ensures
        is_state(args, starts, k + 1, next),
        outcome(args, patches, starts[k + 1], next) == outcome(args, patches, starts[k], o),
        kind_at(args, starts, k) is File ==> o.path is None && next.path == Some(args[starts[k]]@),
        kind_at(args, starts, k) !is File ==> next.path == o.path,
        next.edits == with_edits(args, patches, starts[k], o.edits, o.applied),
        next.applied == o.applied + (if args[starts[k]]@ == ArgView::Text("--apply"@) {
            1int
        } else {
            0
        }),
{
    let kind = kind_at(args, starts, k);
    let i = starts[k];
    kinds_go_by_name(args[i]@);
    match step(args, patches, i, o) {
        Step::Next(next, j) => {
            assert(j == i + width(kind));
            one_step(args, patches, starts, k, o, next, j);
            next
        },
        _ => o,
    }
}

proof fn all_options(
    args: Seq<Arg>,
    patches: Seq<Result<Json, String>>,
    starts: Seq<int>,
    edits: Seq<Seq<(Address, Seq<char>)>>,
    applied: Seq<int>,
    k: int,
) -> (o: OptionsView)
    requires
        are_starts(args, starts),
        are_edits(args, patches, starts, edits, applied),
        0 <= k < starts.len(),
        forall|j: int| !#[trigger] is_named(args, starts, j, "--"@),
        outcome(args, patches, 0, no_options()) is Open,
    ensures
        is_state(args, starts, k, o),
        outcome(args, patches, starts[k], o) == outcome(args, patches, 0, no_options()),
        o.edits == edits[k],
        o.applied == applied[k],
        forall|j: int|
            0 <= j < k && #[trigger] kind_at(args, starts, j) is File ==> o.path == Some(
                args[starts[j]]@,
            ),
    decreases k,
{
    if k == 0 {
        no_options()
    } else {
        let before = all_options(args, patches, starts, edits, applied, k - 1);
        assert(!is_named(args, starts, k - 1, "--"@));
        assert(edits[(k - 1) + 1] == edits[k]);
        assert(applied[(k - 1) + 1] == applied[k]);
        one_option(args, patches, starts, k - 1, before)
    }
}

/// The kind's last option is the last by either of its names.
proof fn last_is(
    args: Seq<Arg>,
    starts: Seq<int>,
    kind: Kind,
    name: Seq<char>,
    other: Seq<char>,
    n: int,
)
    requires
        0 <= n <= starts.len() - 1,
        kind !is File,
        kind !is Unknown,
        forall|t: Seq<char>| #[trigger] option_of(t) == kind <==> t == name || t == other,
    ensures
        match last_of(args, starts, n, kind) {
            Some(k) => {
                &&& 0 <= k < n
                &&& is_either(args, starts, k, name, other)
                &&& forall|j: int|
                    k < j < n ==> !#[trigger] is_either(args, starts, j, name, other)
            },
            None => forall|j: int| j < n ==> !#[trigger] is_either(args, starts, j, name, other),
        },
    decreases n,
{
    if n > 0 {
        last_is(args, starts, kind, name, other, n - 1);
        assert(option_of(name) == kind);
        assert(option_of(other) == kind);
        match args[starts[n - 1]]@ {
            ArgView::Text(t) => {
                assert(kind_at(args, starts, n - 1) == option_of(t));
            },
            ArgView::Bytes(_) => {},
        }
    }
}

/// The flag or value of the options is that of the last option of these names.
proof fn last_is_found(
    args: Seq<Arg>,
    starts: Seq<int>,
    kind: Kind,
    name: Seq<char>,
    other: Seq<char>,
)
    requires
        are_starts(args, starts),
        kind !is File,
        kind !is Unknown,
        forall|t: Seq<char>| #[trigger] option_of(t) == kind <==> t == name || t == other,
    ensures
        last_of(args, starts, starts.len() - 1, kind) is Some <==> is_given(args, starts, name)
            || is_given(args, starts, other),
        forall|k: int| #[trigger]
            is_last(args, starts, k, name, other) ==> last_of(
                args,
                starts,
                starts.len() - 1,
                kind,
            ) == Some(k),
{
    let n = starts.len() - 1;
    last_is(args, starts, kind, name, other, n);
    if is_given(args, starts, name) {
        let k = choose|k: int| #[trigger] is_named(args, starts, k, name);
        assert(is_either(args, starts, k, name, other));
    }
    if is_given(args, starts, other) {
        let k = choose|k: int| #[trigger] is_named(args, starts, k, other);
        assert(is_either(args, starts, k, name, other));
    }
    assert forall|k: int| #[trigger] is_last(args, starts, k, name, other) implies last_of(
        args,
        starts,
        n,
        kind,
    ) == Some(k) by {
        assert(is_either(args, starts, k, name, other));
        let found = last_of(args, starts, n, kind)->0;
        assert(is_either(args, starts, found, name, other));
    }
}

/// The words that an option is given, if it is.
spec fn same_words(args: Seq<Arg>, starts: Seq<int>, kind: Kind, name: Seq<char>) -> bool {
    &&& word_of(args, starts, starts.len() - 1, kind) is Some <==> is_given(args, starts, name)
    &&& forall|k: int| #[trigger]
        is_last(args, starts, k, name, name) ==> word_of(args, starts, starts.len() - 1, kind)
            == Some(word(args, starts[k] + 1))
}

/// The command that opens a file does with it what the arguments say. Every edit of `--set`
/// and of the patches of `--apply` is made, in the order of the arguments. A flag counts
/// wherever it stands. Of an option that is given more than once, the last counts, and one
/// that is not given leaves its default.
pub proof fn every_argument_counts(
    args: Seq<Arg>,
    patches: Seq<Result<Json, String>>,
    starts: Seq<int>,
    edits: Seq<Seq<(Address, Seq<char>)>>,
    applied: Seq<int>,
    r: Result<Command, Error>,
    open: Open,
)
    requires
        crate::cli::is_outcome(r, meaning(args, patches)),
        r matches Ok(Command::Open(found)) && *found == open,
        are_starts(args, starts),
        are_edits(args, patches, starts, edits, applied),
        !is_given(args, starts, "--"@),
    ensures
        edits_view(open.edits@) == edits.last(),
        open.check <==> is_given(args, starts, "--check"@),
        open.dry_run <==> is_given(args, starts, "--dry-run"@),
        !is_given(args, starts, "--sheets"@),
        open.sheet is Some <==> is_given(args, starts, "--sheet"@),
        open.sort is Some <==> is_given(args, starts, "--sort"@),
        open.find is Some <==> is_given(args, starts, "--find"@),
        open.read is Some <==> is_given(args, starts, "--read"@),
        open.output is Some <==> is_given(args, starts, "-o"@) || is_given(
            args,
            starts,
            "--output"@,
        ),
        open.delimiter == 44 || is_given(args, starts, "-d"@) || is_given(
            args,
            starts,
            "--delimiter"@,
        ),
        open.sort matches Some(sort) ==> (sort.1 <==> !is_given(args, starts, "--no-header"@)),
        open.find matches Some(find) ==> {
            &&& find.query.exact <==> is_given(args, starts, "--exact"@)
            &&& find.query.ignore_case <==> is_given(args, starts, "--ignore-case"@)
            &&& find.query.columns is Some <==> is_given(args, starts, "--columns"@)
            &&& find.from is Some <==> is_given(args, starts, "--from"@)
            &&& find.limit is Some <==> is_given(args, starts, "--limit"@)
        },
        forall|k: int| #[trigger]
            is_last(args, starts, k, "--sheet"@, "--sheet"@) ==> open.sheet->0@ == word(
                args,
                starts[k] + 1,
            ),
        forall|k: int| #[trigger]
            is_last(args, starts, k, "--sort"@, "--sort"@) ==> (open.sort->0).0@ == word(
                args,
                starts[k] + 1,
            ),
        forall|k: int| #[trigger]
            is_last(args, starts, k, "--find"@, "--find"@) ==> open.find->0.query.text@ == word(
                args,
                starts[k] + 1,
            ),
        forall|k: int| #[trigger]
            is_last(args, starts, k, "--columns"@, "--columns"@) ==> columns_view(
                open.find->0.query.columns,
            ) == Some(column_list(word(args, starts[k] + 1))),
        forall|k: int| #[trigger]
            is_last(args, starts, k, "--from"@, "--from"@) ==> cell_of(word(args, starts[k] + 1))
                == Ok::<Address, crate::a1::A1Error>(open.find->0.from->0),
        forall|k: int| #[trigger]
            is_last(args, starts, k, "--limit"@, "--limit"@) && all_digits(
                word(args, starts[k] + 1),
            ) ==> open.find->0.limit->0 == number(word(args, starts[k] + 1)),
        forall|k: int| #[trigger]
            is_last(args, starts, k, "--read"@, "--read"@) ==> range_of(word(args, starts[k] + 1))
                == Ok::<crate::a1::Range, crate::a1::A1Error>(open.read->0),
        forall|k: int| #[trigger]
            is_last(args, starts, k, "-o"@, "--output"@) ==> arg_view(open.output) == Some(
                args[starts[k] + 1]@,
            ),
        forall|k: int| #[trigger]
            is_last(args, starts, k, "-d"@, "--delimiter"@) ==> {
                let t = word(args, starts[k] + 1);
                open.delimiter == if t == "tab"@ || t == "\\t"@ {
                    9
                } else {
                    t[0] as u8
                }
            },
        forall|k: int|
            0 <= k < starts.len() - 1 && (match (#[trigger] args[starts[k]])@ {
                ArgView::Text(t) => t.len() == 0 || t[0] != '-',
                ArgView::Bytes(_) => true,
            }) ==> open.path@ == args[starts[k]]@,
{
    let n = starts.len() - 1;
    if args.len() == 0 {
        assert(meaning(args, patches) is Help);
    }
    assert forall|j: int| !#[trigger] is_named(args, starts, j, "--"@) by {}
    let o = all_options(args, patches, starts, edits, applied, n);
    assert(outcome(args, patches, starts[n], o) == crate::cli::combined(o));
    assert(open.serves(o));
    options_by_name(args, starts);
    assert(edits.last() == edits[n]);
    strings();
    assert forall|k: int|
        0 <= k < starts.len() - 1 && (match (#[trigger] args[starts[k]])@ {
            ArgView::Text(t) => t.len() == 0 || t[0] != '-',
            ArgView::Bytes(_) => true,
        }) implies open.path@ == args[starts[k]]@ by {
        file_has_no_dash(args[starts[k]]@);
        assert(kind_at(args, starts, k) is File);
    }
}

proof fn file_has_no_dash(arg: ArgView)
    requires
        match arg {
            ArgView::Text(t) => t.len() == 0 || t[0] != '-',
            ArgView::Bytes(_) => true,
        },
    ensures
        kind_of(arg, false) is File,
{
    reveal_strlit("--");
    reveal_strlit("-h");
    reveal_strlit("--help");
    reveal_strlit("--check");
    reveal_strlit("--sheets");
    reveal_strlit("--sheet");
    reveal_strlit("--sort");
    reveal_strlit("--no-header");
    reveal_strlit("--dry-run");
    reveal_strlit("--find");
    reveal_strlit("--exact");
    reveal_strlit("--ignore-case");
    reveal_strlit("--columns");
    reveal_strlit("--from");
    reveal_strlit("--limit");
    reveal_strlit("--read");
    reveal_strlit("--set");
    reveal_strlit("--apply");
    reveal_strlit("-o");
    reveal_strlit("--output");
    reveal_strlit("-d");
    reveal_strlit("--delimiter");
    assert("--"@[0] == '-' && "-h"@[0] == '-' && "--help"@[0] == '-' && "--check"@[0] == '-'
        && "--sheets"@[0] == '-' && "--sheet"@[0] == '-' && "--sort"@[0] == '-' && "--no-header"@[0]
        == '-' && "--dry-run"@[0] == '-' && "--find"@[0] == '-' && "--exact"@[0] == '-'
        && "--ignore-case"@[0] == '-' && "--columns"@[0] == '-' && "--from"@[0] == '-'
        && "--limit"@[0] == '-' && "--read"@[0] == '-' && "--set"@[0] == '-' && "--apply"@[0] == '-'
        && "-o"@[0] == '-' && "--output"@[0] == '-' && "-d"@[0] == '-' && "--delimiter"@[0] == '-');
    assert("--"@.len() > 0 && "-h"@.len() > 0 && "--help"@.len() > 0 && "--check"@.len() > 0
        && "--sheets"@.len() > 0 && "--sheet"@.len() > 0 && "--sort"@.len() > 0
        && "--no-header"@.len() > 0 && "--dry-run"@.len() > 0 && "--find"@.len() > 0
        && "--exact"@.len() > 0 && "--ignore-case"@.len() > 0 && "--columns"@.len() > 0
        && "--from"@.len() > 0 && "--limit"@.len() > 0 && "--read"@.len() > 0 && "--set"@.len() > 0
        && "--apply"@.len() > 0 && "-o"@.len() > 0 && "--output"@.len() > 0 && "-d"@.len() > 0
        && "--delimiter"@.len() > 0);
}

proof fn options_by_name(args: Seq<Arg>, starts: Seq<int>)
    requires
        are_starts(args, starts),
    ensures
        last_of(args, starts, starts.len() - 1, Kind::Check) is Some <==> is_given(
            args,
            starts,
            "--check"@,
        ),
        last_of(args, starts, starts.len() - 1, Kind::Sheets) is Some <==> is_given(
            args,
            starts,
            "--sheets"@,
        ),
        last_of(args, starts, starts.len() - 1, Kind::DryRun) is Some <==> is_given(
            args,
            starts,
            "--dry-run"@,
        ),
        last_of(args, starts, starts.len() - 1, Kind::Exact) is Some <==> is_given(
            args,
            starts,
            "--exact"@,
        ),
        last_of(args, starts, starts.len() - 1, Kind::IgnoreCase) is Some <==> is_given(
            args,
            starts,
            "--ignore-case"@,
        ),
        last_of(args, starts, starts.len() - 1, Kind::NoHeader) is Some <==> is_given(
            args,
            starts,
            "--no-header"@,
        ),
        same_words(args, starts, Kind::Sheet, "--sheet"@),
        same_words(args, starts, Kind::Sort, "--sort"@),
        same_words(args, starts, Kind::Find, "--find"@),
        same_words(args, starts, Kind::Columns, "--columns"@),
        same_words(args, starts, Kind::From, "--from"@),
        same_words(args, starts, Kind::Limit, "--limit"@),
        same_words(args, starts, Kind::Read, "--read"@),
        last_of(args, starts, starts.len() - 1, Kind::Output) is Some <==> is_given(
            args,
            starts,
            "-o"@,
        ) || is_given(args, starts, "--output"@),
        last_of(args, starts, starts.len() - 1, Kind::Delimiter) is Some <==> is_given(
            args,
            starts,
            "-d"@,
        ) || is_given(args, starts, "--delimiter"@),
        forall|k: int| #[trigger]
            is_last(args, starts, k, "-o"@, "--output"@) ==> last_of(
                args,
                starts,
                starts.len() - 1,
                Kind::Output,
            ) == Some(k),
        forall|k: int| #[trigger]
            is_last(args, starts, k, "-d"@, "--delimiter"@) ==> last_of(
                args,
                starts,
                starts.len() - 1,
                Kind::Delimiter,
            ) == Some(k),
{
    strings();
    last_is_found(args, starts, Kind::Check, "--check"@, "--check"@);
    last_is_found(args, starts, Kind::Sheets, "--sheets"@, "--sheets"@);
    last_is_found(args, starts, Kind::DryRun, "--dry-run"@, "--dry-run"@);
    last_is_found(args, starts, Kind::Exact, "--exact"@, "--exact"@);
    last_is_found(args, starts, Kind::IgnoreCase, "--ignore-case"@, "--ignore-case"@);
    last_is_found(args, starts, Kind::NoHeader, "--no-header"@, "--no-header"@);
    last_is_found(args, starts, Kind::Sheet, "--sheet"@, "--sheet"@);
    last_is_found(args, starts, Kind::Sort, "--sort"@, "--sort"@);
    last_is_found(args, starts, Kind::Find, "--find"@, "--find"@);
    last_is_found(args, starts, Kind::Columns, "--columns"@, "--columns"@);
    last_is_found(args, starts, Kind::From, "--from"@, "--from"@);
    last_is_found(args, starts, Kind::Limit, "--limit"@, "--limit"@);
    last_is_found(args, starts, Kind::Read, "--read"@, "--read"@);
    last_is_found(args, starts, Kind::Output, "-o"@, "--output"@);
    last_is_found(args, starts, Kind::Delimiter, "-d"@, "--delimiter"@);
}

} // verus!
