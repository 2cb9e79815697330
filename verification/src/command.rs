//! The command line: what the arguments ask for.
use vstd::prelude::*;
use vstd::string::*;

use crate::text::{
    all_digits, chars_of, decimal, digits_value, is_digit, lemma_decimal, same_text, text_between,
    views,
};

verus! {

/// How the program is called.
pub const USAGE: &'static str = "usage:
  astral parse        <dir>          print extracted chunks as JSON (no DB)
  astral ingest       <dir>          parse, embed and upsert into .lancedb_data
  astral query        <text> [k]     two-pass retrieval, assembled Markdown context
  astral query-json   <text> [k]     raw KNN results as JSON (retrieval debugging)
  astral export-graph [out.json]     export 3D topology (JSON + three.js viewer)

flags:
  --include-mocks    keep chunks from mocks/, tests/ and interfaces/ paths
                     (both retrieval passes and graph export skip them by default)";

/// How many hits a query asks for by itself.
pub const DEFAULT_K: usize = 5;

/// What the arguments ask for.
#[derive(Debug)]
pub enum Command {
    /// Print the chunks of a directory.
    Parse(String),
    /// Store the chunks of a directory.
    Ingest(String),
    /// Retrieve the context for a text.
    Query(String, usize),
    /// Print the hits for a text.
    QueryJson(String, usize),
    /// Export the topology to a file.
    ExportGraph(String),
    /// A number of hits that is none.
    BadCount(String),
    /// Nothing that is known.
    Usage,
}

/// What a [`Command`] says.
pub enum CommandView {
    Parse(Seq<char>),
    Ingest(Seq<char>),
    Query(Seq<char>, nat),
    QueryJson(Seq<char>, nat),
    ExportGraph(Seq<char>),
    BadCount(Seq<char>),
    Usage,
}

impl View for Command {
    type V = CommandView;

    open spec fn view(&self) -> CommandView {
        match self {
            Command::Parse(dir) => CommandView::Parse(dir@),
            Command::Ingest(dir) => CommandView::Ingest(dir@),
            Command::Query(text, k) => CommandView::Query(text@, *k as nat),
            Command::QueryJson(text, k) => CommandView::QueryJson(text@, *k as nat),
            Command::ExportGraph(out) => CommandView::ExportGraph(out@),
            Command::BadCount(message) => CommandView::BadCount(message@),
            Command::Usage => CommandView::Usage,
        }
    }
}

// ---------------------------------------------------------------- numbers

/// What follows an optional plus sign.
pub open spec fn unsigned_part(chars: Seq<char>) -> Seq<char> {
    if chars.len() > 0 && chars[0] == '+' {
        chars.drop_first()
    } else {
        chars
    }
}

/// The number that a text stands for: decimal digits, at least one, after an
/// optional plus sign, and not too large.
pub open spec fn number_of(text: Seq<char>) -> Option<nat> {
    let digits = unsigned_part(text);
    if digits.len() == 0 || !all_digits(digits) || digits_value(digits) > usize::MAX {
        None
    } else {
        Some(digits_value(digits))
    }
}

/// More digits stand for no smaller number.
proof fn lemma_digits_grow(chars: Seq<char>, n: int)
    requires
        0 <= n <= chars.len(),
        all_digits(chars),
    ensures
        digits_value(chars.take(n)) <= digits_value(chars),
    decreases chars.len(),
{
    if n == chars.len() {
        assert(chars.take(n) =~= chars);
    } else {
        let rest = chars.drop_last();
        assert(all_digits(rest)) by {
            assert forall|i: int| 0 <= i < rest.len() implies is_digit(#[trigger] rest[i]) by {
                assert(rest[i] == chars[i]);
            }
        }
        lemma_digits_grow(rest, n);
        assert(rest.take(n) =~= chars.take(n));
        assert(is_digit(chars[chars.len() - 1]));
    }
}

/// Reads a number.
pub fn parse_count(text: &str) -> (number: Option<usize>)
    ensures
        match number {
            Some(n) => number_of(text@) == Some(n as nat),
            None => number_of(text@) is None,
        },
{
    let chars = chars_of(text);
    let start: usize = if chars.len() > 0 && chars[0] == '+' {
        1
    } else {
        0
    };
    let ghost digits = unsigned_part(text@);
    assert(digits =~= chars@.skip(start as int));
    if start == chars.len() {
        return None;
    }
    let mut value: usize = 0;
    let mut i: usize = start;
    assert(digits.take(0) =~= Seq::<char>::empty());
    while i < chars.len()
        invariant
            start <= i <= chars.len(),
            digits == chars@.skip(start as int),
            digits == unsigned_part(text@),
            digits.len() > 0,
            value == digits_value(digits.take(i - start)),
            forall|j: int| 0 <= j < i - start ==> is_digit(#[trigger] digits[j]),
        decreases chars.len() - i,
    {
        let c = chars[i];
        assert(digits[i - start] == c);
        if !('0' <= c && c <= '9') {
            return None;
        }
        let unit: usize = (c as u32 - 48) as usize;
        proof {
            assert(digits.take(i - start + 1).drop_last() =~= digits.take(i - start));
            assert(digits_value(digits.take(i - start + 1)) == 10 * value + unit);
            if 10 * value + unit > usize::MAX && all_digits(digits) {
                lemma_digits_grow(digits, i - start + 1);
            }
        }
        if value > (usize::MAX - unit) / 10 {
            return None;
        }
        value = 10 * value + unit;
        i += 1;
    }
    assert(digits.take(i - start) =~= digits);
    Some(value)
}

/// Decimal notation is read back as the number it stands for.
pub proof fn decimal_notation_is_read_back(n: nat)
    requires
        n <= usize::MAX,
    ensures
        number_of(decimal(n)) == Some(n),
{
    lemma_decimal(n);
    assert(is_digit(decimal(n)[0]));
}

// ---------------------------------------------------------------- commands

/// The arguments without the flag that keeps auxiliary code.
pub open spec fn without_flag(args: Seq<Seq<char>>) -> Seq<Seq<char>>
    decreases args.len(),
{
    if args.len() == 0 {
        Seq::empty()
    } else {
        let before = without_flag(args.drop_last());
        if args.last() == "--include-mocks"@ {
            before
        } else {
            before.push(args.last())
        }
    }
}

/// A query for a number of hits.
pub open spec fn counted_query(json: bool, text: Seq<char>, k: Seq<char>) -> CommandView {
    match number_of(k) {
        Some(n) => if json {
            CommandView::QueryJson(text, n)
        } else {
            CommandView::Query(text, n)
        },
        None => CommandView::BadCount("k must be a positive integer, got `"@ + k + "`"@),
    }
}

/// What arguments ask for, without flags.
pub open spec fn command_of(args: Seq<Seq<char>>) -> CommandView {
    if args.len() == 2 && args[0] == "parse"@ {
        CommandView::Parse(args[1])
    } else if args.len() == 2 && args[0] == "ingest"@ {
        CommandView::Ingest(args[1])
    } else if args.len() == 2 && args[0] == "query"@ {
        CommandView::Query(args[1], DEFAULT_K as nat)
    } else if args.len() == 3 && args[0] == "query"@ {
        counted_query(false, args[1], args[2])
    } else if args.len() == 2 && args[0] == "query-json"@ {
        CommandView::QueryJson(args[1], DEFAULT_K as nat)
    } else if args.len() == 3 && args[0] == "query-json"@ {
        counted_query(true, args[1], args[2])
    } else if args.len() == 1 && args[0] == "export-graph"@ {
        CommandView::ExportGraph("astral_graph.json"@)
    } else if args.len() == 2 && args[0] == "export-graph"@ {
        CommandView::ExportGraph(args[1])
    } else {
        CommandView::Usage
    }
}

/// Takes the flag that keeps auxiliary code out of the arguments; it can stand
/// anywhere.
pub fn split_flag(args: &Vec<String>) -> (split: (Vec<String>, bool))
    ensures
        views(split.0@) == without_flag(views(args@)),
        split.1 == views(args@).contains("--include-mocks"@),
{
    let ghost all = views(args@);
    let mut rest: Vec<String> = Vec::new();
    let mut found = false;
    let mut i: usize = 0;
    assert(views(rest@) =~= without_flag(all.take(0)));
    while i < args.len()
        invariant
            i <= args.len(),
            all == views(args@),
            views(rest@) == without_flag(all.take(i as int)),
            found == exists|j: int| 0 <= j < i && #[trigger] all[j] == "--include-mocks"@,
        decreases args.len() - i,
    {
        let ghost before = views(rest@);
        assert(all.take(i + 1).drop_last() =~= all.take(i as int));
        assert(all[i as int] == args@[i as int]@);
        if same_text(args[i].as_str(), "--include-mocks") {
            found = true;
        } else {
            rest.push(args[i].clone());
            assert(views(rest@) =~= before.push(all[i as int]));
        }
        i += 1;
    }
    assert(all.take(i as int) =~= all);
    (rest, found)
}

fn read_query(json: bool, text: &str, k: &str) -> (command: Command)
    ensures
        command@ == counted_query(json, text@, k@),
{
    match parse_count(k) {
        Some(n) => if json {
            Command::QueryJson(text.to_owned(), n)
        } else {
            Command::Query(text.to_owned(), n)
        },
        None => {
            let mut message = "k must be a positive integer, got `".to_owned();
            message.append(k);
            message.append("`");
            Command::BadCount(message)
        },
    }
}

/// What arguments ask for, without flags.
pub fn read_command(args: &Vec<String>) -> (command: Command)
    ensures
        command@ == command_of(views(args@)),
{
    let ghost all = views(args@);
    if args.len() == 0 {
        return Command::Usage;
    }
    let name = args[0].as_str();
    assert(all[0] == name@);
    if args.len() == 1 {
        if same_text(name, "export-graph") {
            return Command::ExportGraph("astral_graph.json".to_owned());
        }
        return Command::Usage;
    }
    let first = args[1].as_str();
    assert(all[1] == first@);
    if args.len() == 2 {
        if same_text(name, "parse") {
            return Command::Parse(first.to_owned());
        }
        if same_text(name, "ingest") {
            return Command::Ingest(first.to_owned());
        }
        if same_text(name, "query") {
            return Command::Query(first.to_owned(), DEFAULT_K);
        }
        if same_text(name, "query-json") {
            return Command::QueryJson(first.to_owned(), DEFAULT_K);
        }
        if same_text(name, "export-graph") {
            return Command::ExportGraph(first.to_owned());
        }
        return Command::Usage;
    }
    if args.len() == 3 {
        let second = args[2].as_str();
        assert(all[2] == second@);
        if same_text(name, "query") {
            return read_query(false, first, second);
        }
        if same_text(name, "query-json") {
            return read_query(true, first, second);
        }
    }
    Command::Usage
}

/// A file name with the extension of Solidity sources.
pub open spec fn is_source_name(name: Seq<char>) -> bool {
    name.len() > 4 && name.skip(name.len() - 4) == ".sol"@
}

/// Whether a file name has the extension of Solidity sources.
pub fn is_solidity_source(name: &str) -> (found: bool)
    ensures
        found == is_source_name(name@),
{
    let chars = chars_of(name);
    if chars.len() <= 4 {
        return false;
    }
    let ending = text_between(&chars, chars.len() - 4, chars.len());
    assert(ending@ =~= name@.skip(name@.len() - 4));
    same_text(ending.as_str(), ".sol")
}

} // verus!
