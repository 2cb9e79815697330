//! Promises of the command line.
use vstd::prelude::*;
use vstd::string::*;

use crate::command::{
    command_of, is_solidity_source, is_source_name, number_of, parse_count, read_command,
    split_flag, without_flag, Command, CommandView,
};
use crate::text::{all_digits, digits_value, is_digit, views};

verus! {

/// A text of decimal digits, at least one.
pub open spec fn is_numeral(text: Seq<char>) -> bool {
    text.len() > 0 && forall|i: int| 0 <= i < text.len() ==> 48 <= (#[trigger] text[i]) as int <= 57
}

proof fn lemma_numeral(text: Seq<char>)
    ensures
        is_numeral(text) <==> text.len() > 0 && all_digits(text),
{
    if text.len() > 0 && all_digits(text) {
        assert forall|i: int| 0 <= i < text.len() implies 48 <= (#[trigger] text[i]) as int
            <= 57 by {
            assert(is_digit(text[i]));
        }
    }
    if is_numeral(text) {
        assert forall|i: int| 0 <= i < text.len() implies is_digit(#[trigger] text[i]) by {}
    }
}

/// A number is a text of digits, with or without a plus before it, whose value a
/// machine word can hold; nothing else is one.
pub proof fn numbers_are_digits_with_or_without_a_plus(text: Seq<char>)
    ensures
        is_numeral(text) && digits_value(text) <= usize::MAX ==> number_of(text) == Some(
            digits_value(text),
        ) && number_of(seq!['+'] + text) == Some(digits_value(text)),
        number_of(text) is Some ==> is_numeral(text) || text.len() > 0 && text[0] == '+'
            && is_numeral(text.drop_first()),
        number_of(text) is Some ==> number_of(text)->0 <= usize::MAX,
{
    lemma_numeral(text);
    if is_numeral(text) {
        assert((text[0]) as int >= 48);
        assert((seq!['+'] + text).drop_first() =~= text);
    }
    if text.len() > 0 && text[0] == '+' {
        lemma_numeral(text.drop_first());
    }
}

/// The commands with their arguments, as they are written on the command line.
pub proof fn commands_are_known_by_their_words(argument: Seq<char>, number: Seq<char>)
    ensures
        command_of(seq!["parse"@, argument]) == CommandView::Parse(argument),
        command_of(seq!["ingest"@, argument]) == CommandView::Ingest(argument),
        command_of(seq!["query"@, argument]) == CommandView::Query(argument, 5),
        command_of(seq!["query-json"@, argument]) == CommandView::QueryJson(argument, 5),
        command_of(seq!["export-graph"@]) == CommandView::ExportGraph("astral_graph.json"@),
        command_of(seq!["export-graph"@, argument]) == CommandView::ExportGraph(argument),
        number_of(number) is Some ==> command_of(seq!["query"@, argument, number])
            == CommandView::Query(argument, number_of(number)->0),
        number_of(number) is Some ==> command_of(seq!["query-json"@, argument, number])
            == CommandView::QueryJson(argument, number_of(number)->0),
        number_of(number) is None ==> command_of(seq!["query"@, argument, number])
            == CommandView::BadCount("k must be a positive integer, got `"@ + number + "`"@),
        number_of(number) is None ==> command_of(seq!["query-json"@, argument, number])
            == CommandView::BadCount("k must be a positive integer, got `"@ + number + "`"@),
{
    reveal_strlit("parse");
    reveal_strlit("ingest");
    reveal_strlit("query");
    reveal_strlit("query-json");
    reveal_strlit("export-graph");
    assert("parse"@[0] == 'p' && "query"@[0] == 'q' && "ingest"@[0] == 'i');
    assert("query-json"@.len() == 10 && "query"@.len() == 5);
    assert("export-graph"@[0] == 'e' && "query-json"@[0] == 'q');
}

/// Anything else is answered with how the program is used.
pub proof fn other_arguments_are_answered_with_the_usage(args: Seq<Seq<char>>)
    requires
        args.len() == 0 || args.len() > 3 || args.len() == 3 && args[0] != "query"@ && args[0]
            != "query-json"@ || args.len() == 2 && args[0] != "parse"@ && args[0] != "ingest"@
            && args[0] != "query"@ && args[0] != "query-json"@ && args[0] != "export-graph"@
            || args.len() == 1 && args[0] != "export-graph"@,
    ensures
        command_of(args) is Usage,
{
}

/// The flag is taken out wherever it stands, and everything else stays in its order.
pub proof fn the_flag_is_taken_out(args: Seq<Seq<char>>, last: Seq<char>)
    ensures
        without_flag(Seq::empty()).len() == 0,
        without_flag(args.push("--include-mocks"@)) == without_flag(args),
        last != "--include-mocks"@ ==> without_flag(args.push(last)) == without_flag(args).push(
            last,
        ),
{
    assert(args.push("--include-mocks"@).drop_last() =~= args);
    assert(args.push(last).drop_last() =~= args);
}

/// A Solidity source is a file with something before the ending `.sol`.
pub proof fn sources_end_in_sol(stem: Seq<char>, name: Seq<char>)
    ensures
        stem.len() > 0 ==> is_source_name(stem + ".sol"@),
        is_source_name(name) ==> name.len() > 4 && name == name.take(name.len() - 4) + ".sol"@,
{
    reveal_strlit(".sol");
    assert(".sol"@.len() == 4);
    if stem.len() > 0 {
        let full = stem + ".sol"@;
        assert(full.skip(full.len() - 4) =~= ".sol"@);
    }
    if is_source_name(name) {
        assert(name =~= name.take(name.len() - 4) + name.skip(name.len() - 4));
    }
}

/// Splitting off the flag answers whether it was there, and with all other arguments in
/// their order.
pub proof fn splitting_answers_with_the_other_arguments(
    args: &Vec<String>,
    split: (Vec<String>, bool),
)
    requires
        call_ensures(split_flag, (args,), split),
    ensures
        split.1 == views(args@).contains("--include-mocks"@),
        views(split.0@) == views(args@).filter(|arg: Seq<char>| arg != "--include-mocks"@),
{
    lemma_without_flag(views(args@));
}

proof fn lemma_without_flag(args: Seq<Seq<char>>)
    ensures
        without_flag(args) == args.filter(|arg: Seq<char>| arg != "--include-mocks"@),
    decreases args.len(),
{
    reveal(Seq::filter);
    if args.len() > 0 {
        lemma_without_flag(args.drop_last());
    } else {
        assert(without_flag(args) =~= args);
    }
}

/// Reading two words answers with the command that the first one names.
pub proof fn reading_answers_with_the_named_command(args: &Vec<String>, command: Command)
    requires
        call_ensures(read_command, (args,), command),
        args@.len() == 2,
    ensures
        args@[0]@ == "parse"@ ==> command@ == CommandView::Parse(args@[1]@),
        args@[0]@ == "ingest"@ ==> command@ == CommandView::Ingest(args@[1]@),
        args@[0]@ == "query"@ ==> command@ == CommandView::Query(args@[1]@, 5),
        args@[0]@ == "query-json"@ ==> command@ == CommandView::QueryJson(args@[1]@, 5),
        args@[0]@ == "export-graph"@ ==> command@ == CommandView::ExportGraph(args@[1]@),
        args@[0]@ != "parse"@ && args@[0]@ != "ingest"@ && args@[0]@ != "query"@ && args@[0]@
            != "query-json"@ && args@[0]@ != "export-graph"@ ==> command is Usage,
{
    let words = views(args@);
    assert(words[0] == args@[0]@ && words[1] == args@[1]@);
    assert(words =~= seq![words[0], words[1]]);
    commands_are_known_by_their_words(words[1], words[1]);
    if args@[0]@ != "parse"@ && args@[0]@ != "ingest"@ && args@[0]@ != "query"@ && args@[0]@
        != "query-json"@ && args@[0]@ != "export-graph"@ {
        other_arguments_are_answered_with_the_usage(words);
    }
}

/// Reading a query with a number answers with so many hits, or says that it is none.
pub proof fn reading_a_numbered_query_answers_with_the_number(
    args: &Vec<String>,
    command: Command,
)
    requires
        call_ensures(read_command, (args,), command),
        args@.len() == 3,
        args@[0]@ == "query"@ || args@[0]@ == "query-json"@,
    ensures
        is_numeral(args@[2]@) && digits_value(args@[2]@) <= usize::MAX && args@[0]@ == "query"@
            ==> command@ == CommandView::Query(args@[1]@, digits_value(args@[2]@)),
        is_numeral(args@[2]@) && digits_value(args@[2]@) <= usize::MAX && args@[0]@
            == "query-json"@ ==> command@ == CommandView::QueryJson(
            args@[1]@,
            digits_value(args@[2]@),
        ),
        !is_numeral(args@[2]@) && !(args@[2]@.len() > 0 && args@[2]@[0] == '+') ==> command@
            == CommandView::BadCount("k must be a positive integer, got `"@ + args@[2]@ + "`"@),
{
    let words = views(args@);
    assert(words[0] == args@[0]@ && words[1] == args@[1]@ && words[2] == args@[2]@);
    assert(words =~= seq![words[0], words[1], words[2]]);
    commands_are_known_by_their_words(words[1], words[2]);
    numbers_are_digits_with_or_without_a_plus(words[2]);
}

/// Asking for a file name answers whether it ends in `.sol` behind something.
pub proof fn asking_for_a_name_answers_by_its_ending(name: &str, found: bool)
    requires
        call_ensures(is_solidity_source, (name,), found),
    ensures
        found <==> exists|stem: Seq<char>| stem.len() > 0 && name@ == #[trigger] (stem + ".sol"@),
{
    if found {
        sources_end_in_sol(Seq::empty(), name@);
        let stem = name@.take(name@.len() - 4);
        assert(name@ == stem + ".sol"@);
    }
    if exists|stem: Seq<char>| stem.len() > 0 && name@ == #[trigger] (stem + ".sol"@) {
        let stem = choose|stem: Seq<char>|
            stem.len() > 0 && name@ == #[trigger] (stem + ".sol"@);
        sources_end_in_sol(stem, name@);
    }
}

/// Reading a number answers with the value of its digits.
pub proof fn reading_a_number_answers_with_its_value(text: &str, number: Option<usize>)
    requires
        call_ensures(parse_count, (text,), number),
    ensures
        is_numeral(text@) && digits_value(text@) <= usize::MAX ==> number is Some && number->0
            == digits_value(text@),
        number is Some ==> is_numeral(text@) || text@.len() > 0 && text@[0] == '+' && is_numeral(
            text@.drop_first(),
        ),
{
    numbers_are_digits_with_or_without_a_plus(text@);
}

/// Reading no words, one word or too many answers with the export to the usual file, or
/// with the usage.
pub proof fn reading_other_lengths_answers_with_the_usage(args: &Vec<String>, command: Command)
    requires
        call_ensures(read_command, (args,), command),
        args@.len() < 2 || args@.len() > 3,
    ensures
        args@.len() == 1 && args@[0]@ == "export-graph"@ ==> command@ == CommandView::ExportGraph(
            "astral_graph.json"@,
        ),
        !(args@.len() == 1 && args@[0]@ == "export-graph"@) ==> command is Usage,
{
    let words = views(args@);
    if args@.len() == 1 && args@[0]@ == "export-graph"@ {
        assert(words[0] == args@[0]@);
        assert(words =~= seq!["export-graph"@]);
        commands_are_known_by_their_words(words[0], words[0]);
    } else {
        if args@.len() == 1 {
            assert(words[0] == args@[0]@);
        }
        other_arguments_are_answered_with_the_usage(words);
    }
}

} // verus!
