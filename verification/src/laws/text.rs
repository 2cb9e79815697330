//! Promises of the text operations.
use vstd::prelude::*;
use vstd::string::*;
use vstd::utf8::*;

use crate::text::{
    after_last, all_digits, before_mark, contains_text, decimal, decimal_text, digits_value,
    is_digit, join, joined, lemma_text_irreflexive, lemma_text_transitive, next_mark, occurs_at,
    text_before, text_contains, text_less, trim_back, trim_chars, trim_front, trimmed, views,
};

verus! {

/// The code points of white space.
pub open spec fn is_white(c: char) -> bool {
    let code = c as int;
    ||| 9 <= code <= 13
    ||| code == 32 || code == 0x85 || code == 0xa0 || code == 0x1680
    ||| 0x2000 <= code <= 0x200a
    ||| code == 0x2028 || code == 0x2029 || code == 0x202f || code == 0x205f || code == 0x3000
}

/// A text of nothing but white space.
pub open spec fn is_blank(text: Seq<char>) -> bool {
    forall|i: int| 0 <= i < text.len() ==> is_white(#[trigger] text[i])
}

/// A text that neither starts nor ends with white space.
pub open spec fn is_bare(text: Seq<char>) -> bool {
    text.len() > 0 ==> !is_white(text[0]) && !is_white(text.last())
}

/// None of the marks stands in the text.
pub open spec fn is_free_of(text: Seq<char>, marks: Seq<char>) -> bool {
    forall|i: int| 0 <= i < text.len() ==> !marks.contains(#[trigger] text[i])
}

/// Trimming gives back what stands between white space.
pub proof fn trimming_takes_white_space_off_both_ends(
    front: Seq<char>,
    core: Seq<char>,
    back: Seq<char>,
)
    requires
        is_blank(front),
        is_bare(core),
        is_blank(back),
    ensures
        trimmed(front + core + back) == core,
{
    if core.len() == 0 {
        let all = front + core + back;
        assert forall|i: int| 0 <= i < all.len() implies is_white(#[trigger] all[i]) by {
            if i < front.len() {
                assert(all[i] == front[i]);
            } else {
                assert(all[i] == back[i - front.len()]);
            }
        }
        lemma_front_falls(all, Seq::empty());
        assert(all + Seq::empty() =~= all);
        assert(trim_front(Seq::<char>::empty()) =~= Seq::empty());
        assert(trimmed(all) =~= core);
    } else {
        let rest = core + back;
        assert(front + core + back =~= front + rest);
        assert(rest[0] == core[0]);
        lemma_front_falls(front, rest);
        assert(trim_front(rest) == rest);
        lemma_back_falls(core, back);
    }
}

proof fn lemma_front_falls(front: Seq<char>, rest: Seq<char>)
    requires
        is_blank(front),
    ensures
        trim_front(front + rest) == trim_front(rest),
    decreases front.len(),
{
    if front.len() > 0 {
        let all = front + rest;
        let fewer = front.drop_first();
        assert(is_white(front[0]));
        assert(all[0] == front[0]);
        assert forall|i: int| 0 <= i < fewer.len() implies is_white(#[trigger] fewer[i]) by {
            assert(fewer[i] == front[i + 1]);
        }
        lemma_front_falls(fewer, rest);
        assert(all.drop_first() =~= fewer + rest);
    } else {
        assert(front + rest =~= rest);
    }
}

proof fn lemma_back_falls(core: Seq<char>, back: Seq<char>)
    requires
        core.len() > 0,
        !is_white(core.last()),
        is_blank(back),
    ensures
        trim_back(core + back) == core,
    decreases back.len(),
{
    let all = core + back;
    if back.len() > 0 {
        let fewer = back.drop_last();
        assert(is_white(back[back.len() - 1]));
        assert(all.last() == back[back.len() - 1]);
        assert forall|i: int| 0 <= i < fewer.len() implies is_white(#[trigger] fewer[i]) by {
            assert(fewer[i] == back[i]);
        }
        lemma_back_falls(core, fewer);
        assert(all.drop_last() =~= core + fewer);
    } else {
        assert(all =~= core);
    }
}

/// A text is cut where the first of the marks stands, and nowhere else.
pub proof fn texts_are_cut_at_the_first_mark(
    front: Seq<char>,
    rest: Seq<char>,
    marks: Seq<char>,
)
    requires
        is_free_of(front, marks),
        rest.len() == 0 || marks.contains(rest[0]),
    ensures
        before_mark(front + rest, marks) == front,
{
    let all = front + rest;
    lemma_next_mark(all, marks, 0, front.len() as int);
    assert(all.take(front.len() as int) =~= front);
}

proof fn lemma_next_mark(all: Seq<char>, marks: Seq<char>, from: int, at: int)
    requires
        0 <= from <= at <= all.len(),
        forall|i: int| from <= i < at ==> !marks.contains(#[trigger] all[i]),
        at == all.len() || marks.contains(all[at]),
    ensures
        next_mark(all, marks, from) == at,
    decreases at - from,
{
    if from < at {
        assert(!marks.contains(all[from]));
        lemma_next_mark(all, marks, from + 1, at);
    }
}

/// Behind the last mark stands what has no mark in it.
pub proof fn what_follows_the_last_mark_is_found(front: Seq<char>, tail: Seq<char>, mark: char)
    requires
        !tail.contains(mark),
    ensures
        after_last(front + seq![mark] + tail, mark) == tail,
        after_last(tail, mark) == tail,
    decreases tail.len(),
{
    let all = front + seq![mark] + tail;
    if tail.len() == 0 {
        assert(all.last() == mark);
        assert(after_last(all, mark) =~= tail);
        assert(after_last(tail, mark) =~= tail);
    } else {
        let fewer = tail.drop_last();
        assert(!fewer.contains(mark)) by {
            if fewer.contains(mark) {
                assert(tail[fewer.index_of(mark)] == mark);
            }
        }
        assert(tail[tail.len() - 1] != mark);
        assert(all.last() == tail.last());
        what_follows_the_last_mark_is_found(front, fewer, mark);
        assert(all.drop_last() =~= front + seq![mark] + fewer);
        assert(fewer.push(tail.last()) =~= tail);
    }
}

/// A text holds another where it is made of something, the other, and something.
pub proof fn a_text_holds_what_it_is_made_of(before: Seq<char>, part: Seq<char>, after: Seq<char>)
    ensures
        contains_text(before + part + after, part),
        occurs_at(before + part + after, part, before.len() as int),
{
    let at = before.len() as int;
    assert((before + part + after).subrange(at, at + part.len()) =~= part);
    assert(occurs_at(before + part + after, part, at));
}

/// Where a text holds another, it is made of what stands before, the other, and what
/// stands behind.
pub proof fn what_a_text_holds_it_is_made_of(text: Seq<char>, part: Seq<char>)
    requires
        contains_text(text, part),
    ensures
        exists|before: Seq<char>, after: Seq<char>| text == #[trigger] (before + part + after),
{
    let i = choose|i: int| occurs_at(text, part, i);
    let before = text.take(i);
    let after = text.skip(i + part.len());
    assert(text =~= before + text.subrange(i, i + part.len()) + after);
    assert(text == before + part + after);
}

/// Parts are joined one by one, with the separator between them and nowhere else.
pub proof fn parts_are_joined_in_order(parts: Seq<Seq<char>>, last: Seq<char>, sep: Seq<char>)
    ensures
        joined(Seq::empty(), sep).len() == 0,
        joined(seq![last], sep) == last,
        parts.len() > 0 ==> joined(parts.push(last), sep) == joined(parts, sep) + sep + last,
    decreases parts.len(),
{
    assert(seq![last].len() == 1);
    if parts.len() == 1 {
        let all = parts.push(last);
        assert(all.drop_first() =~= seq![last]);
        assert(joined(all, sep) == all[0] + sep + joined(seq![last], sep));
    } else if parts.len() > 1 {
        let all = parts.push(last);
        let rest = parts.drop_first();
        parts_are_joined_in_order(rest, last, sep);
        assert(all.drop_first() =~= rest.push(last));
        assert(joined(all, sep) =~= joined(parts, sep) + sep + last);
    }
}

/// Numbers are written with the digits of the decimal system, the last one last and
/// without leading zeros.
pub proof fn numbers_are_written_in_decimal(n: nat, last: nat)
    requires
        last < 10,
    ensures
        decimal(last).len() == 1,
        decimal(last)[0] as u32 == 48 + last,
        n > 0 ==> decimal(10 * n + last).len() == decimal(n).len() + 1,
        n > 0 ==> decimal(10 * n + last).drop_last() == decimal(n),
        n > 0 ==> decimal(10 * n + last).last() as u32 == 48 + last,
{
    if n > 0 {
        assert((10 * n + last) / 10 == n);
        assert((10 * n + last) % 10 == last);
        assert(decimal(10 * n + last).drop_last() =~= decimal(n));
    }
}

/// Digits are read as a decimal number: a further digit counts once, and what stands
/// before it ten times.
pub proof fn digits_are_read_in_decimal(front: Seq<char>, last: char)
    requires
        all_digits(front.push(last)),
    ensures
        digits_value(Seq::empty()) == 0,
        48 <= last as u32 <= 57,
        digits_value(front.push(last)) == 10 * digits_value(front) + (last as u32 - 48),
        all_digits(front),
{
    let all = front.push(last);
    assert(is_digit(all[front.len() as int]));
    assert(all.drop_last() =~= front);
    assert forall|i: int| 0 <= i < front.len() implies is_digit(#[trigger] front[i]) by {
        assert(is_digit(all[i]));
    }
}

/// Texts are ordered by their bytes: the first byte that differs decides, and a text
/// comes before its continuations.
pub proof fn texts_are_ordered_by_their_bytes(a: Seq<char>, b: Seq<char>, k: int)
    requires
        0 <= k <= encode_utf8(a).len(),
        k < encode_utf8(b).len(),
        encode_utf8(a).take(k) == encode_utf8(b).take(k),
        k == encode_utf8(a).len() || encode_utf8(a)[k] < encode_utf8(b)[k],
    ensures
        text_before(a, b),
        !text_before(b, a),
        a != b,
{
    let x = encode_utf8(a);
    let y = encode_utf8(b);
    assert forall|j: int| 0 <= j < k implies x[j] == y[j] by {
        assert(x.take(k)[j] == y.take(k)[j]);
    }
    assert(crate::text::differs_at(x, y, k));
    if text_before(b, a) {
        lemma_text_transitive(a, b, a);
    }
    lemma_text_irreflexive(a);
}

/// Trimming answers with what stands between the white space.
pub proof fn trimming_answers_with_the_core(
    chars: &Vec<char>,
    text: Vec<char>,
    front: Seq<char>,
    core: Seq<char>,
    back: Seq<char>,
)
    requires
        call_ensures(trim_chars, (chars,), text),
        chars@ == front + core + back,
        is_blank(front),
        is_bare(core),
        is_blank(back),
    ensures
        text@ == core,
{
    trimming_takes_white_space_off_both_ends(front, core, back);
}

/// Looking for a text in another answers whether the other is made of it and of what
/// stands before and after it.
pub proof fn looking_for_a_text_answers_by_what_stands_around_it(
    hay: &str,
    needle: &str,
    found: bool,
)
    requires
        call_ensures(text_contains, (hay, needle), found),
    ensures
        found <==> exists|before: Seq<char>, after: Seq<char>|
            hay@ == #[trigger] (before + needle@ + after),
{
    if found {
        what_a_text_holds_it_is_made_of(hay@, needle@);
    }
    if exists|before: Seq<char>, after: Seq<char>|
        hay@ == #[trigger] (before + needle@ + after) {
        let (before, after) = choose|before: Seq<char>, after: Seq<char>|
            hay@ == #[trigger] (before + needle@ + after);
        a_text_holds_what_it_is_made_of(before, needle@, after);
    }
}

/// Joining one part more puts the separator and the part behind what was joined before.
pub proof fn joining_answers_with_the_parts_in_order(
    parts: &Vec<String>,
    more: &Vec<String>,
    sep: &str,
    text: String,
    longer: String,
)
    requires
        call_ensures(join, (parts, sep), text),
        call_ensures(join, (more, sep), longer),
        more@.len() == parts@.len() + 1,
        views(more@).drop_last() == views(parts@),
    ensures
        parts@.len() == 0 ==> text@.len() == 0 && longer@ == more@[0]@,
        parts@.len() > 0 ==> longer@ == text@ + sep@ + more@.last()@,
{
    let all = views(parts@);
    let last = more@.last()@;
    assert(all.len() == parts@.len());
    assert(views(more@).last() == last);
    assert(views(more@) =~= all.push(last));
    parts_are_joined_in_order(all, last, sep@);
    if all.len() == 0 {
        assert(all =~= Seq::empty());
        assert(all.push(last) =~= seq![last]);
    }
}

/// Writing a number answers with its digits.
pub proof fn writing_a_number_answers_with_its_digits(
    tens: u128,
    n: u128,
    front: String,
    text: String,
)
    requires
        call_ensures(decimal_text, (tens,), front),
        call_ensures(decimal_text, (n,), text),
        10 * tens <= n < 10 * tens + 10,
    ensures
        text@.last() as u32 == 48 + (n - 10 * tens),
        tens > 0 ==> text@.drop_last() == front@,
        tens == 0 ==> text@.len() == 1,
{
    let last = (n - 10 * tens) as nat;
    numbers_are_written_in_decimal(tens as nat, last);
    assert(10 * (tens as nat) + last == n as nat);
}

/// Comparing texts answers by the first bytes in which they differ.
pub proof fn comparing_texts_answers_by_their_bytes(
    a: &str,
    b: &str,
    less: bool,
    more: bool,
    k: int,
)
    requires
        call_ensures(text_less, (a, b), less),
        call_ensures(text_less, (b, a), more),
        0 <= k <= encode_utf8(a@).len(),
        k < encode_utf8(b@).len(),
        encode_utf8(a@).take(k) == encode_utf8(b@).take(k),
        k == encode_utf8(a@).len() || encode_utf8(a@)[k] < encode_utf8(b@)[k],
    ensures
        less,
        !more,
{
    texts_are_ordered_by_their_bytes(a@, b@, k);
}

} // verus!
