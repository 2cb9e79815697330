//! Text primitives: comparison, ordering, searching, joining and decimal
//! notation, each stated over the characters of the text.
use vstd::prelude::*;
use vstd::string::*;
use vstd::utf8::*;

verus! {

// ---------------------------------------------------------------- equality

/// Texts with the same bytes have the same characters.
pub proof fn lemma_bytes_determine_text(a: Seq<char>, b: Seq<char>)
    requires
        encode_utf8(a) == encode_utf8(b),
    ensures
        a == b,
{
    encode_utf8_decode_utf8(a);
    encode_utf8_decode_utf8(b);
}

/// Whether two byte strings agree.
fn same_bytes(a: &[u8], b: &[u8]) -> (same: bool)
    ensures
        same == (a@ == b@),
{
    if a.len() != b.len() {
        return false;
    }
    let mut i: usize = 0;
    while i < a.len()
        invariant
            i <= a.len(),
            a.len() == b.len(),
            forall|j: int| 0 <= j < i ==> a@[j] == b@[j],
        decreases a.len() - i,
    {
        if a[i] != b[i] {
            return false;
        }
        i += 1;
    }
    assert(a@ =~= b@);
    true
}

/// Whether two texts agree.
pub fn same_text(a: &str, b: &str) -> (same: bool)
    ensures
        same == (a@ == b@),
{
    let same = same_bytes(a.as_bytes(), b.as_bytes());
    proof {
        if same {
            lemma_bytes_determine_text(a@, b@);
        }
    }
    same
}

// ---------------------------------------------------------------- characters

/// Appends one character to a text: `String::push`, which "appends the given
/// `char` to the end of this `String`".
pub assume_specification[ String::push ](text: &mut String, c: char)
    ensures
        final(text)@ == old(text)@.push(c),
;

/// The characters of a text, in order.
pub fn chars_of(text: &str) -> (chars: Vec<char>)
    ensures
        chars@ == text@,
{
    let mut chars: Vec<char> = Vec::new();
    for c in it: text.chars()
        invariant
            chars@ == text@.take(it.index()),
            it.seq() == text@,
    {
        chars.push(c);
    }
    chars
}

/// The text made of the characters from `from` up to `to`.
pub fn text_between(chars: &Vec<char>, from: usize, to: usize) -> (text: String)
    requires
        from <= to <= chars.len(),
    ensures
        text@ == chars@.subrange(from as int, to as int),
{
    let mut text = String::new();
    let mut i: usize = from;
    while i < to
        invariant
            from <= i <= to <= chars.len(),
            text@ == chars@.subrange(from as int, i as int),
        decreases to - i,
    {
        text.push(chars[i]);
        i += 1;
    }
    text
}

// ---------------------------------------------------------------- order

/// `a` comes before `b` because they agree on their first `k` bytes, and there
/// `a` ends or has the smaller byte.
pub open spec fn differs_at(a: Seq<u8>, b: Seq<u8>, k: int) -> bool {
    &&& 0 <= k <= a.len()
    &&& k < b.len()
    &&& forall|j: int| 0 <= j < k ==> a[j] == b[j]
    &&& k == a.len() || a[k] < b[k]
}

/// Lexicographic order of byte strings.
pub open spec fn bytes_before(a: Seq<u8>, b: Seq<u8>) -> bool {
    exists|k: int| differs_at(a, b, k)
}

/// The order of texts: lexicographic by their UTF-8 bytes.
pub open spec fn text_before(a: Seq<char>, b: Seq<char>) -> bool {
    bytes_before(encode_utf8(a), encode_utf8(b))
}

/// No text comes before itself.
pub proof fn lemma_text_irreflexive(a: Seq<char>)
    ensures
        !text_before(a, a),
{
}

proof fn lemma_bytes_transitive(a: Seq<u8>, b: Seq<u8>, c: Seq<u8>)
    requires
        bytes_before(a, b),
        bytes_before(b, c),
    ensures
        bytes_before(a, c),
{
    let i = choose|k: int| differs_at(a, b, k);
    let j = choose|k: int| differs_at(b, c, k);
    let m = if i < j { i } else { j };
    assert(differs_at(a, c, m));
}

/// The order of texts is transitive.
pub proof fn lemma_text_transitive(a: Seq<char>, b: Seq<char>, c: Seq<char>)
    requires
        text_before(a, b),
        text_before(b, c),
    ensures
        text_before(a, c),
{
    lemma_bytes_transitive(encode_utf8(a), encode_utf8(b), encode_utf8(c));
}

proof fn lemma_bytes_connected(a: Seq<u8>, b: Seq<u8>, agreed: int)
    requires
        a != b,
        0 <= agreed <= a.len(),
        agreed <= b.len(),
        forall|j: int| 0 <= j < agreed ==> a[j] == b[j],
    ensures
        bytes_before(a, b) || bytes_before(b, a),
    decreases a.len() - agreed,
{
    if agreed == a.len() && agreed == b.len() {
        assert(a =~= b);
    } else if agreed == a.len() {
        assert(differs_at(a, b, agreed));
    } else if agreed == b.len() {
        assert(differs_at(b, a, agreed));
    } else if a[agreed] < b[agreed] {
        assert(differs_at(a, b, agreed));
    } else if b[agreed] < a[agreed] {
        assert(differs_at(b, a, agreed));
    } else {
        lemma_bytes_connected(a, b, agreed + 1);
    }
}

/// Of two different texts one comes before the other.
pub proof fn lemma_text_connected(a: Seq<char>, b: Seq<char>)
    requires
        a != b,
    ensures
        text_before(a, b) || text_before(b, a),
{
    if encode_utf8(a) == encode_utf8(b) {
        lemma_bytes_determine_text(a, b);
    }
    lemma_bytes_connected(encode_utf8(a), encode_utf8(b), 0);
}

/// Whether `a` comes before `b` in the order of byte strings.
fn bytes_less(a: &[u8], b: &[u8]) -> (less: bool)
    ensures
        less == bytes_before(a@, b@),
{
    let mut i: usize = 0;
    while i < a.len() && i < b.len()
        invariant
            i <= a.len(),
            i <= b.len(),
            forall|j: int| 0 <= j < i ==> a@[j] == b@[j],
        decreases a.len() - i,
    {
        if a[i] < b[i] {
            assert(differs_at(a@, b@, i as int));
            return true;
        }
        if b[i] < a[i] {
            assert forall|k: int| !differs_at(a@, b@, k) by {
                if differs_at(a@, b@, k) {
                    assert(k <= i);
                }
            }
            return false;
        }
        i += 1;
    }
    if i < b.len() {
        assert(differs_at(a@, b@, i as int));
        true
    } else {
        assert forall|k: int| !differs_at(a@, b@, k) by {
            if differs_at(a@, b@, k) {
                assert(k < b@.len());
                assert(a@[k] == b@[k]);
            }
        }
        false
    }
}

/// Whether `a` comes before `b` in the order of texts.
pub fn text_less(a: &str, b: &str) -> (less: bool)
    ensures
        less == text_before(a@, b@),
{
    bytes_less(a.as_bytes(), b.as_bytes())
}

// ---------------------------------------------------------------- searching

/// `needle` stands in `hay` at position `i`.
pub open spec fn occurs_at(hay: Seq<char>, needle: Seq<char>, i: int) -> bool {
    &&& 0 <= i
    &&& i + needle.len() <= hay.len()
    &&& hay.subrange(i, i + needle.len()) == needle
}

/// `needle` stands somewhere in `hay`.
pub open spec fn contains_text(hay: Seq<char>, needle: Seq<char>) -> bool {
    exists|i: int| occurs_at(hay, needle, i)
}

/// Whether `needle` stands in `hay` at position `i`.
pub fn matches_at(hay: &Vec<char>, needle: &Vec<char>, i: usize) -> (found: bool)
    requires
        i + needle.len() <= hay.len(),
    ensures
        found == occurs_at(hay@, needle@, i as int),
{
    let mut j: usize = 0;
    while j < needle.len()
        invariant
            j <= needle.len(),
            i + needle.len() <= hay.len(),
            forall|k: int| 0 <= k < j ==> hay@[i + k] == needle@[k],
        decreases needle.len() - j,
    {
        if hay[i + j] != needle[j] {
            assert(hay@.subrange(i as int, i + needle@.len())[j as int] != needle@[j as int]);
            return false;
        }
        j += 1;
    }
    assert(hay@.subrange(i as int, i + needle@.len()) =~= needle@);
    true
}

/// Whether `needle` stands somewhere in `hay`.
pub fn text_contains(hay: &str, needle: &str) -> (found: bool)
    ensures
        found == contains_text(hay@, needle@),
{
    let h = chars_of(hay);
    let n = chars_of(needle);
    if n.len() == 0 {
        assert(hay@.subrange(0, 0) =~= needle@);
        assert(occurs_at(hay@, needle@, 0));
        return true;
    }
    let mut i: usize = 0;
    while i < h.len() && n.len() <= h.len() - i
        invariant
            h@ == hay@,
            n@ == needle@,
            i <= h.len(),
            forall|k: int| 0 <= k < i ==> !occurs_at(hay@, needle@, k),
        decreases h.len() - i,
    {
        if matches_at(&h, &n, i) {
            return true;
        }
        i += 1;
    }
    false
}

// ---------------------------------------------------------------- splitting

/// The position of the first character at or after `from` that is one of
/// `marks`, or the length of `chars`.
pub open spec fn next_mark(chars: Seq<char>, marks: Seq<char>, from: int) -> int
    decreases chars.len() - from,
{
    if from >= chars.len() || marks.contains(chars[from]) {
        from
    } else {
        next_mark(chars, marks, from + 1)
    }
}

/// What stands before the first of `marks` (all of it, where there is none).
pub open spec fn before_mark(chars: Seq<char>, marks: Seq<char>) -> Seq<char> {
    chars.take(next_mark(chars, marks, 0))
}

/// What stands after the last `mark` (all of it, where there is none).
pub open spec fn after_last(chars: Seq<char>, mark: char) -> Seq<char>
    decreases chars.len(),
{
    if chars.len() == 0 || chars.last() == mark {
        Seq::empty()
    } else {
        after_last(chars.drop_last(), mark).push(chars.last())
    }
}

/// The Unicode characters with the White_Space property.
pub open spec fn is_space(c: char) -> bool {
    ||| '\u{9}' <= c <= '\u{d}'
    ||| c == ' '
    ||| c == '\u{85}'
    ||| c == '\u{a0}'
    ||| c == '\u{1680}'
    ||| '\u{2000}' <= c <= '\u{200a}'
    ||| c == '\u{2028}'
    ||| c == '\u{2029}'
    ||| c == '\u{202f}'
    ||| c == '\u{205f}'
    ||| c == '\u{3000}'
}

/// The text without leading white space.
pub open spec fn trim_front(chars: Seq<char>) -> Seq<char>
    decreases chars.len(),
{
    if chars.len() > 0 && is_space(chars[0]) {
        trim_front(chars.drop_first())
    } else {
        chars
    }
}

/// The text without trailing white space.
pub open spec fn trim_back(chars: Seq<char>) -> Seq<char>
    decreases chars.len(),
{
    if chars.len() > 0 && is_space(chars.last()) {
        trim_back(chars.drop_last())
    } else {
        chars
    }
}

/// The text without white space around it.
pub open spec fn trimmed(chars: Seq<char>) -> Seq<char> {
    trim_back(trim_front(chars))
}

/// Whether a character has the Unicode White_Space property.
pub fn char_is_space(c: char) -> (space: bool)
    ensures
        space == is_space(c),
{
    ('\u{9}' <= c && c <= '\u{d}') || c == ' ' || c == '\u{85}' || c == '\u{a0}' || c == '\u{1680}'
        || ('\u{2000}' <= c && c <= '\u{200a}') || c == '\u{2028}' || c == '\u{2029}'
        || c == '\u{202f}' || c == '\u{205f}' || c == '\u{3000}'
}

/// The first position of one of `marks`.
pub fn find_mark(chars: &Vec<char>, marks: &[char]) -> (at: usize)
    ensures
        at == next_mark(chars@, marks@, 0),
        at <= chars.len(),
{
    let mut i: usize = 0;
    while i < chars.len()
        invariant
            i <= chars.len(),
            next_mark(chars@, marks@, 0) == next_mark(chars@, marks@, i as int),
        decreases chars.len() - i,
    {
        let mut j: usize = 0;
        while j < marks.len()
            invariant
                j <= marks.len(),
                i < chars.len(),
                next_mark(chars@, marks@, 0) == next_mark(chars@, marks@, i as int),
                forall|k: int| 0 <= k < j ==> marks@[k] != chars@[i as int],
            decreases marks.len() - j,
        {
            if marks[j] == chars[i] {
                assert(marks@.contains(chars@[i as int]));
                return i;
            }
            j += 1;
        }
        i += 1;
    }
    i
}

/// The first position after the last `mark`.
pub fn after_last_mark(chars: &Vec<char>, mark: char) -> (at: usize)
    ensures
        at <= chars.len(),
        chars@.skip(at as int) == after_last(chars@, mark),
{
    let mut i: usize = chars.len();
    assert(chars@.take(i as int) =~= chars@);
    while i > 0
        invariant
            i <= chars.len(),
            after_last(chars@, mark) == after_last(chars@.take(i as int), mark) + chars@.skip(i as int),
        decreases i,
    {
        if chars[i - 1] == mark {
            assert(chars@.skip(i as int) =~= after_last(chars@, mark));
            return i;
        }
        assert(chars@.take(i as int).drop_last() =~= chars@.take(i - 1));
        assert(after_last(chars@.take(i - 1), mark).push(chars@[i - 1]) + chars@.skip(i as int)
            =~= after_last(chars@.take(i - 1), mark) + chars@.skip(i - 1));
        i -= 1;
    }
    assert(chars@.skip(0) =~= after_last(chars@, mark));
    0
}

/// The text without white space around it.
pub fn trim_chars(chars: &Vec<char>) -> (text: Vec<char>)
    ensures
        text@ == trimmed(chars@),
{
    let mut from: usize = 0;
    assert(chars@.skip(0) =~= chars@);
    while from < chars.len() && char_is_space(chars[from])
        invariant
            from <= chars.len(),
            trim_front(chars@) == trim_front(chars@.skip(from as int)),
        decreases chars.len() - from,
    {
        assert(chars@.skip(from as int).drop_first() =~= chars@.skip(from + 1));
        from += 1;
    }
    let ghost front = chars@.skip(from as int);
    assert(trim_front(chars@) == front);
    let mut to: usize = chars.len();
    assert(chars@.subrange(from as int, to as int) =~= front);
    while to > from && char_is_space(chars[to - 1])
        invariant
            from <= to <= chars.len(),
            trim_back(front) == trim_back(chars@.subrange(from as int, to as int)),
        decreases to,
    {
        assert(chars@.subrange(from as int, to as int).drop_last() =~= chars@.subrange(from as int, to - 1));
        to -= 1;
    }
    let mut text: Vec<char> = Vec::new();
    let mut i: usize = from;
    while i < to
        invariant
            from <= i <= to <= chars.len(),
            text@ == chars@.subrange(from as int, i as int),
        decreases to - i,
    {
        text.push(chars[i]);
        i += 1;
    }
    text
}

// ---------------------------------------------------------------- joining

/// The parts one after the other, with `sep` between neighbours.
pub open spec fn joined(parts: Seq<Seq<char>>, sep: Seq<char>) -> Seq<char>
    decreases parts.len(),
{
    if parts.len() == 0 {
        Seq::empty()
    } else if parts.len() == 1 {
        parts[0]
    } else {
        parts[0] + sep + joined(parts.drop_first(), sep)
    }
}

/// The characters of each text of a list.
pub open spec fn views(texts: Seq<String>) -> Seq<Seq<char>> {
    texts.map_values(|t: String| t@)
}

proof fn lemma_joined_push(parts: Seq<Seq<char>>, part: Seq<char>, sep: Seq<char>)
    requires
        parts.len() > 0,
    ensures
        joined(parts.push(part), sep) == joined(parts, sep) + sep + part,
    decreases parts.len(),
{
    if parts.len() == 1 {
        assert(parts.push(part).drop_first() =~= seq![part]);
        assert(joined(seq![part], sep) == part);
    } else {
        lemma_joined_push(parts.drop_first(), part, sep);
        assert(parts.push(part).drop_first() =~= parts.drop_first().push(part));
        assert(joined(parts.push(part), sep) =~= joined(parts, sep) + sep + part);
    }
}

/// Joins texts with a separator between neighbours.
pub fn join(parts: &Vec<String>, sep: &str) -> (text: String)
    ensures
        text@ == joined(views(parts@), sep@),
{
    let mut text = String::new();
    let mut i: usize = 0;
    while i < parts.len()
        invariant
            i <= parts.len(),
            text@ == joined(views(parts@).take(i as int), sep@),
        decreases parts.len() - i,
    {
        let ghost done = views(parts@).take(i as int);
        assert(views(parts@).take(i + 1) =~= done.push(parts@[i as int]@));
        if i > 0 {
            text.append(sep);
            proof {
                lemma_joined_push(done, parts@[i as int]@, sep@);
            }
        }
        text.append(parts[i].as_str());
        i += 1;
    }
    assert(views(parts@).take(i as int) =~= views(parts@));
    text
}

// ---------------------------------------------------------------- numbers

/// The decimal digit for a number below ten.
pub open spec fn digit(n: nat) -> char {
    ('0' as u32 + n) as char
}

/// Decimal notation.
pub open spec fn decimal(n: nat) -> Seq<char>
    decreases n,
{
    if n < 10 {
        seq![digit(n)]
    } else {
        decimal(n / 10).push(digit(n % 10))
    }
}

/// The decimal digit for a number below ten.
pub fn digit_char(n: u128) -> (c: char)
    requires
        n < 10,
    ensures
        c == digit(n as nat),
{
    (48u8 + n as u8) as char
}

/// A decimal digit.
pub open spec fn is_digit(c: char) -> bool {
    '0' <= c <= '9'
}

/// All characters are decimal digits.
pub open spec fn all_digits(chars: Seq<char>) -> bool {
    forall|i: int| 0 <= i < chars.len() ==> is_digit(#[trigger] chars[i])
}

/// The number that decimal digits stand for.
pub open spec fn digits_value(chars: Seq<char>) -> nat
    decreases chars.len(),
{
    if chars.len() == 0 {
        0
    } else {
        (10 * digits_value(chars.drop_last()) + (chars.last() as u32 - '0' as u32)) as nat
    }
}

/// Decimal notation is made of digits, and stands for its number.
pub proof fn lemma_decimal(n: nat)
    ensures
        decimal(n).len() > 0,
        all_digits(decimal(n)),
        digits_value(decimal(n)) == n,
    decreases n,
{
    reveal_with_fuel(digits_value, 2);
    if n < 10 {
        assert(decimal(n).drop_last() =~= Seq::<char>::empty());
        assert(is_digit(digit(n)));
    } else {
        lemma_decimal(n / 10);
        let rest = decimal(n / 10);
        assert(decimal(n).drop_last() =~= rest);
        assert(is_digit(digit(n % 10)));
        assert forall|i: int| 0 <= i < decimal(n).len() implies is_digit(
            #[trigger] decimal(n)[i],
        ) by {
            if i < rest.len() {
                assert(decimal(n)[i] == rest[i]);
            }
        }
    }
}

/// Two numbers with the same decimal notation are the same.
pub proof fn lemma_decimal_injective(a: nat, b: nat)
    requires
        decimal(a) == decimal(b),
    ensures
        a == b,
{
    lemma_decimal(a);
    lemma_decimal(b);
}

/// Writes a number in decimal notation.
pub fn decimal_text(n: u128) -> (text: String)
    ensures
        text@ == decimal(n as nat),
{
    let mut reversed: Vec<char> = Vec::new();
    let mut rest: u128 = n;
    assert(reversed@.reverse() =~= Seq::<char>::empty());
    assert(decimal(n as nat) + Seq::<char>::empty() =~= decimal(n as nat));
    while rest >= 10
        invariant
            decimal(n as nat) == decimal(rest as nat) + reversed@.reverse(),
        decreases rest,
    {
        let ghost tail = reversed@.reverse();
        let ghost head = decimal((rest / 10) as nat);
        reversed.push(digit_char(rest % 10));
        assert(reversed@.reverse() =~= seq![digit((rest % 10) as nat)] + tail);
        assert(head.push(digit((rest % 10) as nat)) + tail =~= head + reversed@.reverse());
        rest = rest / 10;
    }
    let ghost tail = reversed@.reverse();
    reversed.push(digit_char(rest));
    assert(reversed@.reverse() =~= seq![digit(rest as nat)] + tail);
    let mut text = String::new();
    let mut i: usize = reversed.len();
    while i > 0
        invariant
            i <= reversed.len(),
            text@ == reversed@.reverse().take(reversed.len() - i),
        decreases i,
    {
        assert(reversed@.reverse().take(reversed.len() - i + 1) =~= text@.push(reversed@[i - 1]));
        text.push(reversed[i - 1]);
        i -= 1;
    }
    assert(reversed@.reverse().take(reversed.len() as int) =~= reversed@.reverse());
    text
}

} // verus!
