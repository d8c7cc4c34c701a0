use vstd::prelude::*;

verus! {

/// What a list of strings holds.
pub open spec fn texts(list: Seq<String>) -> Seq<Seq<char>> {
    Seq::new(list.len(), |i: int| list[i]@)
}

/// The texts one after another, with `separator` between any two.
pub open spec fn joined(list: Seq<Seq<char>>, separator: Seq<char>) -> Seq<char>
    decreases list.len(),
{
    if list.len() == 0 {
        Seq::empty()
    } else if list.len() == 1 {
        list[0]
    } else {
        joined(list.drop_last(), separator) + separator + list.last()
    }
}

/// Joins the strings with `separator` between any two.
pub fn join(list: &Vec<String>, separator: &str) -> (r: String)
    ensures
        r@ == joined(texts(list@), separator@),
{
    let mut r = String::new();
    let mut i: usize = 0;
    let ghost all = texts(list@);
    while i < list.len()
        invariant
            i <= list.len(),
            all == texts(list@),
            r@ == joined(all.take(i as int), separator@),
        decreases list.len() - i,
    {
        proof {
            assert(all.take(i + 1).drop_last() =~= all.take(i as int));
            assert(all.take(i + 1).last() == list[i as int]@);
        }
        if i > 0 {
            r.append(separator);
        }
        r.append(list[i].as_str());
        proof {
            if i == 0 {
                assert(r@ =~= list[0]@);
            }
        }
        i = i + 1;
    }
    assert(all.take(i as int) =~= all);
    r
}

/// The pieces of a text between the occurrences of `mark`.
pub open spec fn split(text: Seq<char>, mark: char) -> Seq<Seq<char>>
    decreases text.len(),
{
    if text.len() == 0 {
        seq![Seq::empty()]
    } else {
        let pieces = split(text.drop_last(), mark);
        if text.last() == mark {
            pieces.push(Seq::empty())
        } else {
            pieces.drop_last().push(pieces.last().push(text.last()))
        }
    }
}

proof fn lemma_split_is_not_empty(text: Seq<char>, mark: char)
    ensures
        split(text, mark).len() > 0,
    decreases text.len(),
{
    if text.len() > 0 {
        lemma_split_is_not_empty(text.drop_last(), mark);
    }
}

/// Text without the mark goes to the last piece.
proof fn lemma_split_extends(text: Seq<char>, tail: Seq<char>, mark: char)
    requires
        !tail.contains(mark),
    ensures
        split(text + tail, mark) == split(text, mark).drop_last().push(
            split(text, mark).last() + tail,
        ),
    decreases tail.len(),
{
    lemma_split_is_not_empty(text, mark);
    let pieces = split(text, mark);
    if tail.len() == 0 {
        assert(text + tail =~= text);
        assert(pieces.last() + tail =~= pieces.last());
        assert(pieces.drop_last().push(pieces.last()) =~= pieces);
    } else {
        let shorter = tail.drop_last();
        assert forall|i: int| 0 <= i < shorter.len() implies shorter[i] != mark by {
            assert(tail.contains(tail[i]));
        }
        assert(tail.contains(tail.last()));
        lemma_split_extends(text, shorter, mark);
        assert((text + tail).drop_last() =~= text + shorter);
        let inner = split(text + shorter, mark);
        assert(inner.drop_last() =~= pieces.drop_last());
        assert((pieces.last() + shorter).push(tail.last()) =~= pieces.last() + tail);
    }
}

/// Joining texts with a mark that none of them holds can be undone: splitting
/// at the mark gives the texts back.
pub proof fn law_joined_texts_can_be_split(list: Seq<Seq<char>>, mark: char)
    requires
        list.len() > 0,
        forall|i: int| 0 <= i < list.len() ==> !(#[trigger] list[i]).contains(mark),
    ensures
        split(joined(list, seq![mark]), mark) == list,
    decreases list.len(),
{
    let none = Seq::<char>::empty();
    if list.len() == 1 {
        lemma_split_extends(none, list[0], mark);
        assert(none + list[0] =~= list[0]);
        assert(split(list[0], mark) =~= list);
    } else {
        let earlier = list.drop_last();
        assert forall|i: int| 0 <= i < earlier.len() implies !(#[trigger] earlier[i]).contains(
            mark,
        ) by {
            assert(earlier[i] == list[i]);
        }
        law_joined_texts_can_be_split(earlier, mark);
        assert(list.last() == list[list.len() - 1]);
        let front = joined(earlier, seq![mark]) + seq![mark];
        assert(front.drop_last() =~= joined(earlier, seq![mark]));
        lemma_split_extends(front, list.last(), mark);
        assert(earlier.push(none).drop_last() =~= earlier);
        assert(none + list.last() =~= list.last());
        assert(earlier.push(list.last()) =~= list);
    }
}

/// The characters that Unicode counts as white space.
pub open spec fn is_white_space(c: char) -> bool {
    let code = c as u32;
    ||| 0x09 <= code <= 0x0d
    ||| code == 0x20
    ||| code == 0x85
    ||| code == 0xa0
    ||| code == 0x1680
    ||| 0x2000 <= code <= 0x200a
    ||| code == 0x2028
    ||| code == 0x2029
    ||| code == 0x202f
    ||| code == 0x205f
    ||| code == 0x3000
}

/// Nothing but white space.
pub open spec fn blank(text: Seq<char>) -> bool {
    forall|i: int| 0 <= i < text.len() ==> is_white_space(#[trigger] text[i])
}

fn white_space(c: char) -> (b: bool)
    ensures
        b == is_white_space(c),
{
    let code: u32 = c as u32;
    (0x09 <= code && code <= 0x0d) || code == 0x20 || code == 0x85 || code == 0xa0 || code == 0x1680
        || (0x2000 <= code && code <= 0x200a) || code == 0x2028 || code == 0x2029 || code == 0x202f
        || code == 0x205f || code == 0x3000
}

/// Whether there is nothing but white space in `text`.
pub fn is_blank(text: &str) -> (b: bool)
    ensures
        b == blank(text@),
{
    for c in it: text.chars()
        invariant
            it.seq() == text@,
            forall|i: int| 0 <= i < it.index() ==> is_white_space(#[trigger] text@[i]),
    {
        if !white_space(c) {
            assert(!is_white_space(text@[it.index() as int]));
            return false;
        }
    }
    true
}

/// The characters of `text`.
pub fn characters(text: &str) -> (r: Vec<char>)
    ensures
        r@ == text@,
{
    let mut r: Vec<char> = Vec::new();
    for c in it: text.chars()
        invariant
            it.seq() == text@,
            r@ == text@.take(it.index() as int),
    {
        r.push(c);
        assert(text@.take(it.index() + 1) =~= text@.take(it.index() as int).push(c));
    }
    assert(text@.take(text@.len() as int) =~= text@);
    r
}

/// `text` without the occurrences of `pattern` that are found from left to
/// right.
pub open spec fn removed(text: Seq<char>, pattern: Seq<char>) -> Seq<char>
    decreases text.len(),
{
    if pattern.len() == 0 || text.len() < pattern.len() {
        text
    } else if text.take(pattern.len() as int) == pattern {
        removed(text.skip(pattern.len() as int), pattern)
    } else {
        seq![text[0]] + removed(text.skip(1), pattern)
    }
}

/// Whether `pattern` stands in `text` at `start`.
fn stands_at(text: &Vec<char>, start: usize, pattern: &Vec<char>) -> (b: bool)
    requires
        start + pattern.len() <= text.len(),
    ensures
        b == (text@.subrange(start as int, start + pattern.len()) == pattern@),
{
    let mut i: usize = 0;
    while i < pattern.len()
        invariant
            start + pattern.len() <= text.len(),
            i <= pattern.len(),
            forall|j: int| 0 <= j < i ==> text@[start + j] == pattern@[j],
        decreases pattern.len() - i,
    {
        if text[start + i] != pattern[i] {
            assert(text@.subrange(start as int, start + pattern.len())[i as int] != pattern@[i as int]);
            return false;
        }
        i = i + 1;
    }
    assert(text@.subrange(start as int, start + pattern.len()) =~= pattern@);
    true
}

/// Removes every occurrence of `pattern`, from left to right.
pub fn remove_all(text: &str, pattern: &str) -> (r: String)
    ensures
        r@ == removed(text@, pattern@),
{
    let chars = characters(text);
    let wanted = characters(pattern);
    let mut r = String::new();
    let mut start: usize = 0;
    let mut i: usize = 0;
    assert(text@.skip(0) =~= text@);
    assert(r@ + text@.subrange(0, 0) + removed(text@.skip(0), pattern@) =~= removed(text@, pattern@));
    while wanted.len() > 0 && i < chars.len() && chars.len() - i >= wanted.len()
        invariant
            chars@ == text@,
            wanted@ == pattern@,
            start <= i <= chars.len(),
            r@ + text@.subrange(start as int, i as int) + removed(text@.skip(i as int), pattern@)
                == removed(text@, pattern@),
        decreases chars.len() - i,
    {
        let ghost rest = text@.skip(i as int);
        let ghost n = pattern@.len() as int;
        assert(rest.take(n) =~= text@.subrange(i as int, i + n));
        if stands_at(&chars, i, &wanted) {
            assert(rest.skip(n) =~= text@.skip(i + n));
            r.append(text.substring_char(start, i));
            i = i + wanted.len();
            start = i;
            assert(r@ + text@.subrange(start as int, i as int) =~= r@);
        } else {
            assert(rest.skip(1) =~= text@.skip(i + 1));
            assert(text@.subrange(start as int, i as int) + seq![text@[i as int]] =~= text@.subrange(
                start as int,
                i + 1,
            ));
            assert(r@ + text@.subrange(start as int, i + 1) + removed(text@.skip(i + 1), pattern@)
                =~= r@ + text@.subrange(start as int, i as int) + removed(rest, pattern@));
            i = i + 1;
        }
    }
    let ghost rest = text@.skip(i as int);
    assert(removed(rest, pattern@) == rest);
    assert(text@.subrange(start as int, i as int) + rest =~= text@.subrange(
        start as int,
        text@.len() as int,
    ));
    r.append(text.substring_char(start, chars.len()));
    assert(r@ =~= removed(text@, pattern@));
    r
}

/// The decimal digit of `d`.
pub open spec fn digit(d: nat) -> char
    recommends
        d < 10,
{
    (0x30 + d) as char
}

/// The decimal notation of `n`.
pub open spec fn decimal(n: nat) -> Seq<char>
    decreases n,
{
    if n < 10 {
        seq![digit(n)]
    } else {
        decimal(n / 10).push(digit(n % 10))
    }
}

/// Appends a decimal digit.
fn append_digit(text: &mut String, d: u32)
    requires
        d < 10,
    ensures
        final(text)@ == old(text)@.push(digit(d as nat)),
{
    let names = "0123456789";
    proof {
        reveal_strlit("0123456789");
    }
    let ghost before = text@;
    text.append(names.substring_char(d as usize, d as usize + 1));
    assert(names@.subrange(d as int, d + 1) =~= seq![digit(d as nat)]);
    assert(text@ =~= before.push(digit(d as nat)));
}

/// Writes `n` in decimal notation.
pub fn to_decimal(n: u32) -> (r: String)
    ensures
        r@ == decimal(n as nat),
    decreases n,
{
    let mut r = if n < 10 {
        String::new()
    } else {
        to_decimal(n / 10)
    };
    append_digit(&mut r, n % 10);
    assert(n < 10 ==> r@ =~= seq![digit(n as nat)]);
    r
}

/// What a list of strings shows is what the strings hold, in their order.
pub proof fn law_texts_are_shown_as_they_are(list: Seq<String>)
    ensures
        texts(list).len() == list.len(),
        forall|i: int| 0 <= i < list.len() ==> #[trigger] texts(list)[i] == list[i]@,
{
}

/// A further text comes after all others, with the separator before it unless
/// it is the first.
pub proof fn law_texts_are_joined_one_by_one(
    list: Seq<Seq<char>>,
    text: Seq<char>,
    separator: Seq<char>,
)
    ensures
        list.len() == 0 ==> joined(list, separator) == Seq::<char>::empty(),
        joined(list.push(text), separator) == if list.len() == 0 {
            text
        } else {
            joined(list, separator) + separator + text
        },
{
    assert(list.push(text).drop_last() =~= list);
}

/// A text is blank if all its parts are: nothing is blank, a character is if it
/// is white space, and two texts are together if both are.
pub proof fn law_blank_text_has_blank_parts(a: Seq<char>, b: Seq<char>, c: char)
    ensures
        blank(Seq::empty()),
        blank(seq![c]) <==> is_white_space(c),
        blank(a + b) <==> blank(a) && blank(b),
{
    assert(seq![c][0] == c);
    if blank(a + b) {
        assert forall|i: int| 0 <= i < a.len() implies is_white_space(#[trigger] a[i]) by {
            assert((a + b)[i] == a[i]);
        }
        assert forall|i: int| 0 <= i < b.len() implies is_white_space(#[trigger] b[i]) by {
            assert((a + b)[a.len() + i] == b[i]);
        }
    }
}

/// White space is these 25 characters: five controls and the space, the next
/// line, the no-break space, the Ogham space, eleven spaces of various widths,
/// the two separators, the narrow no-break, the mathematical and the ideographic
/// space.
pub proof fn law_white_space_is_known(c: char)
    ensures
        is_white_space(c) <==> c == '\t' || c == '\n' || c == '\u{b}' || c == '\u{c}' || c == '\r'
            || c == ' ' || c == '\u{85}' || c == '\u{a0}' || c == '\u{1680}' || c == '\u{2000}' || c
            == '\u{2001}' || c == '\u{2002}' || c == '\u{2003}' || c == '\u{2004}' || c
            == '\u{2005}' || c == '\u{2006}' || c == '\u{2007}' || c == '\u{2008}' || c
            == '\u{2009}' || c == '\u{200a}' || c == '\u{2028}' || c == '\u{2029}' || c
            == '\u{202f}' || c == '\u{205f}' || c == '\u{3000}',
{
}

/// The occurrence of a pattern that is found first is taken out, what stands
/// before it stays, and the search goes on behind it. Without an occurrence the
/// text stays as it is.
pub proof fn law_occurrences_are_removed_from_left_to_right(
    text: Seq<char>,
    pattern: Seq<char>,
    first: nat,
)
    requires
        pattern.len() > 0,
        forall|i: int|
            0 <= i < first && i + pattern.len() <= text.len() ==> #[trigger] text.subrange(
                i,
                i + pattern.len(),
            ) != pattern,
    ensures
        first + pattern.len() <= text.len() && text.subrange(
            first as int,
            (first + pattern.len()) as int,
        ) == pattern ==> removed(text, pattern) == text.take(first as int) + removed(
            text.skip((first + pattern.len()) as int),
            pattern,
        ),
        first + pattern.len() > text.len() ==> removed(text, pattern) == text,
    decreases text.len(),
{
    let n = pattern.len() as int;
    if text.len() >= n {
        assert(text.take(n) =~= text.subrange(0, 0 + n));
        if first == 0 {
            assert(text.take(0) + removed(text.skip(n), pattern) =~= removed(
                text.skip(n),
                pattern,
            ));
        } else {
            let rest = text.skip(1);
            let next = (first - 1) as nat;
            assert forall|i: int|
                0 <= i < next && i + pattern.len() <= rest.len() implies #[trigger] rest.subrange(
                i,
                i + pattern.len(),
            ) != pattern by {
                assert(rest.subrange(i, i + n) =~= text.subrange(i + 1, i + 1 + n));
            }
            law_occurrences_are_removed_from_left_to_right(rest, pattern, next);
            if first + n <= text.len() {
                assert(rest.subrange(next as int, next + n) =~= text.subrange(
                    first as int,
                    first + n,
                ));
                assert(rest.skip(next + n) =~= text.skip(first + n));
                let tail = removed(text.skip(first + n), pattern);
                assert(seq![text[0]] + (rest.take(next as int) + tail) =~= text.take(first as int)
                    + tail);
            } else {
                assert(seq![text[0]] + rest =~= text);
            }
        }
    }
}

/// The number that a row of digits stands for.
pub open spec fn digits_value(digits: Seq<char>) -> int
    decreases digits.len(),
{
    if digits.len() == 0 {
        0
    } else {
        10 * digits_value(digits.drop_last()) + (digits.last() as int - '0' as int)
    }
}

/// The decimal notation of a number is read back as that number. It is made of
/// the digits from 0 to 9, and does not begin with 0 unless the number is zero.
pub proof fn law_decimal_notation_can_be_read_back(n: nat)
    ensures
        digits_value(decimal(n)) == n,
        decimal(n).len() > 0,
        forall|i: int| 0 <= i < decimal(n).len() ==> '0' <= #[trigger] decimal(n)[i] <= '9',
        n > 0 ==> decimal(n)[0] != '0',
        n == 0 ==> decimal(n) == seq!['0'],
    decreases n,
{
    if n < 10 {
        let written = decimal(n);
        assert(written.drop_last() =~= Seq::<char>::empty());
        assert(digits_value(written.drop_last()) == 0);
        assert(written[0] == digit(n));
    } else {
        law_decimal_notation_can_be_read_back(n / 10);
        assert(decimal(n).drop_last() =~= decimal(n / 10));
        assert(decimal(n).last() == digit(n % 10));
        assert(decimal(n)[0] == decimal(n / 10)[0]);
        assert forall|i: int| 0 <= i < decimal(n).len() implies '0' <= #[trigger] decimal(n)[i]
            <= '9' by {
            if i < decimal(n / 10).len() {
                assert(decimal(n)[i] == decimal(n / 10)[i]);
            }
        }
    }
}

} // verus!
