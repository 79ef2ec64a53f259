//! Building text: padding and joining.

use vstd::prelude::*;
use vstd::string::*;

verus! {

/// `String::push` appends one character to the end of the string.
pub assume_specification[ String::push ](s: &mut String, c: char)
    ensures
        final(s)@ == old(s)@.push(c),
;

/// The character `character`, `count` times over.
pub open spec fn fill(character: char, count: int) -> Seq<char> {
    Seq::new(if count > 0 { count as nat } else { 0 }, |i: int| character)
}

/// `text` with blanks in front of it, so that it is at least `width` characters long.
pub open spec fn aligned_right(text: Seq<char>, width: int) -> Seq<char> {
    fill(' ', width - text.len()) + text
}

/// `text` with blanks behind it, so that it is at least `width` characters long.
pub open spec fn aligned_left(text: Seq<char>, width: int) -> Seq<char> {
    text + fill(' ', width - text.len())
}

/// The parts one after another, with `separator` between each two of them.
pub open spec fn joined(parts: Seq<Seq<char>>, separator: Seq<char>) -> Seq<char>
    decreases parts.len(),
{
    if parts.len() == 0 {
        Seq::empty()
    } else if parts.len() == 1 {
        parts[0]
    } else {
        joined(parts.drop_last(), separator) + separator + parts.last()
    }
}

/// The texts that a vector of strings holds.
pub open spec fn texts(strings: Seq<String>) -> Seq<Seq<char>> {
    Seq::new(strings.len(), |i: int| strings[i]@)
}

/// Whether two strings hold the same text.
pub fn same_text(left: &String, right: &str) -> (same: bool)
    ensures
        same == (left@ == right@),
{
    *left == right.to_owned()
}

/// Appends `character` to `text`, `count` times.
pub fn push_fill(text: &mut String, character: char, count: usize)
    ensures
        final(text)@ == old(text)@ + fill(character, count as int),
{
    let mut written: usize = 0;
    while written < count
        invariant
            written <= count,
            text@ == old(text)@ + fill(character, written as int),
        decreases count - written,
    {
        text.push(character);
        written += 1;
    }
}

/// `text` with blanks in front of it, up to `width` characters.
pub fn align_right(text: &str, width: usize) -> (aligned: String)
    ensures
        aligned@ == aligned_right(text@, width as int),
{
    let length: usize = text.unicode_len();
    let mut aligned = String::new();
    if length < width {
        push_fill(&mut aligned, ' ', width - length);
    }
    aligned.append(text);
    aligned
}

/// `text` with blanks behind it, up to `width` characters.
pub fn align_left(text: &str, width: usize) -> (aligned: String)
    ensures
        aligned@ == aligned_left(text@, width as int),
{
    let length: usize = text.unicode_len();
    let mut aligned = text.to_owned();
    if length < width {
        push_fill(&mut aligned, ' ', width - length);
    }
    aligned
}

/// Joins the parts, with `separator` between each two of them.
pub fn join(parts: &Vec<String>, separator: &str) -> (text: String)
    ensures
        text@ == joined(texts(parts@), separator@),
{
    let mut text = String::new();
    let mut taken: usize = 0;
    while taken < parts.len()
        invariant
            taken <= parts.len(),
            text@ == joined(texts(parts@).take(taken as int), separator@),
        decreases parts.len() - taken,
    {
        if taken > 0 {
            text.append(separator);
        }
        text.append(parts[taken].as_str());
        proof {
            let seen = texts(parts@).take(taken + 1);
            assert(seen.drop_last() =~= texts(parts@).take(taken as int));
            assert(seen.last() == parts@[taken as int]@);
        }
        taken += 1;
    }
    assert(texts(parts@).take(taken as int) =~= texts(parts@));
    text
}

/// Where the part at `position` starts in the joined text, if the parts have these lengths and the
/// separator has `gap` characters.
pub open spec fn part_start(lengths: Seq<nat>, gap: nat, position: int) -> nat
    decreases position,
{
    if position <= 0 {
        0
    } else {
        part_start(lengths, gap, position - 1) + lengths[position - 1] + gap
    }
}

/// The lengths of the parts.
pub open spec fn lengths(parts: Seq<Seq<char>>) -> Seq<nat> {
    Seq::new(parts.len(), |i: int| parts[i].len())
}

proof fn lemma_part_start_prefix(shorter: Seq<nat>, longer: Seq<nat>, gap: nat, position: int)
    requires
        0 <= position <= shorter.len() <= longer.len(),
        shorter =~= longer.take(shorter.len() as int),
    ensures
        part_start(shorter, gap, position) == part_start(longer, gap, position),
    decreases position,
{
    if position > 0 {
        lemma_part_start_prefix(shorter, longer, gap, position - 1);
        assert(shorter[position - 1] == longer.take(shorter.len() as int)[position - 1]);
    }
}

/// In a joined text, every part stands where the lengths of the parts before it put it, and every
/// part but the first has the separator right before it.
pub proof fn lemma_joined_layout(parts: Seq<Seq<char>>, separator: Seq<char>, position: int)
    requires
        0 <= position < parts.len(),
    ensures
        ({
            let text = joined(parts, separator);
            let start = part_start(lengths(parts), separator.len(), position) as int;
            let last = parts.len() - 1;
            &&& text.len() == part_start(lengths(parts), separator.len(), last) + parts[last].len()
            &&& start + parts[position].len() <= text.len()
            &&& text.subrange(start, start + parts[position].len()) == parts[position]
            &&& position > 0 ==> start >= separator.len() && text.subrange(
                start - separator.len(),
                start,
            ) == separator
        }),
    decreases parts.len(),
{
    let text = joined(parts, separator);
    let start = part_start(lengths(parts), separator.len(), position) as int;
    if parts.len() == 1 {
        assert(text.subrange(0, text.len() as int) =~= parts[0]);
    } else {
        let front = parts.drop_last();
        let last = parts.len() - 1;
        lemma_joined_layout(front, separator, last - 1);
        assert(lengths(front) =~= lengths(parts).take(last));
        lemma_part_start_prefix(lengths(front), lengths(parts), separator.len(), last - 1);
        let text_of_front = joined(front, separator);
        assert(text == text_of_front + separator + parts.last());
        let end = part_start(lengths(parts), separator.len(), last) as int;
        assert(end == text_of_front.len() + separator.len());
        if position == last {
            assert(text.subrange(start, start + parts[position].len()) =~= parts[position]);
            assert(text.subrange(start - separator.len(), start) =~= separator);
        } else {
            lemma_joined_layout(front, separator, position);
            lemma_part_start_prefix(lengths(front), lengths(parts), separator.len(), position);
            assert(front[position] == parts[position]);
            let stop = start + parts[position].len();
            assert(text.subrange(start, stop) =~= text_of_front.subrange(start, stop));
            if position > 0 {
                assert(text.subrange(start - separator.len(), start) =~= text_of_front.subrange(
                    start - separator.len(),
                    start,
                ));
            }
        }
    }
}

/// Whether every character of `text` is one that `allowed` accepts.
pub open spec fn only(text: Seq<char>, allowed: spec_fn(char) -> bool) -> bool {
    forall|i: int| 0 <= i < text.len() ==> allowed(#[trigger] text[i])
}

/// A joined text holds no characters but those of its parts and of the separator.
pub proof fn lemma_joined_only(
    parts: Seq<Seq<char>>,
    separator: Seq<char>,
    allowed: spec_fn(char) -> bool,
)
    requires
        only(separator, allowed),
        forall|i: int| 0 <= i < parts.len() ==> only(#[trigger] parts[i], allowed),
    ensures
        only(joined(parts, separator), allowed),
    decreases parts.len(),
{
    if parts.len() > 1 {
        let front = parts.drop_last();
        assert forall|i: int| 0 <= i < front.len() implies only(#[trigger] front[i], allowed) by {
            assert(front[i] == parts[i]);
        }
        lemma_joined_only(front, separator, allowed);
        assert(only(parts.last(), allowed));
    }
}

/// A text that is aligned to the right is as long as the width, or as it was if that is more; it
/// ends with the text and has only blanks before it.
pub proof fn lemma_aligned_right_by_character(text: Seq<char>, width: int)
    ensures
        ({
            let aligned = aligned_right(text, width);
            let blanks = aligned.len() - text.len();
            &&& text.len() >= width ==> aligned == text
            &&& text.len() < width ==> aligned.len() == width
            &&& forall|i: int| 0 <= i < blanks ==> #[trigger] aligned[i] == ' '
            &&& forall|i: int| 0 <= i < text.len() ==> aligned[blanks + i] == #[trigger] text[i]
        }),
{
    if text.len() >= width {
        assert(aligned_right(text, width) =~= text);
    }
}

/// A text that is aligned to the left is as long as the width, or as it was if that is more; it
/// starts with the text and has only blanks behind it.
pub proof fn lemma_aligned_left_by_character(text: Seq<char>, width: int)
    ensures
        ({
            let aligned = aligned_left(text, width);
            &&& text.len() >= width ==> aligned == text
            &&& text.len() < width ==> aligned.len() == width
            &&& forall|i: int| 0 <= i < text.len() ==> #[trigger] aligned[i] == text[i]
            &&& forall|i: int| text.len() <= i < aligned.len() ==> #[trigger] aligned[i] == ' '
        }),
{
    if text.len() >= width {
        assert(aligned_left(text, width) =~= text);
    }
}

/// A joined text is built part by part: nothing of nothing, one part as it is, and after that the
/// separator and the next part each time.
pub proof fn lemma_joined_part_by_part(parts: Seq<Seq<char>>, next: Seq<char>, separator: Seq<char>)
    ensures
        joined(Seq::empty(), separator) == Seq::<char>::empty(),
        joined(seq![next], separator) == next,
        parts.len() > 0 ==> joined(parts.push(next), separator) == joined(parts, separator)
            + separator + next,
{
    assert(parts.push(next).drop_last() =~= parts);
}

/// The first part starts at the start, and every other one where the part before it and a separator
/// end.
pub proof fn lemma_parts_follow_closely(lengths: Seq<nat>, gap: nat, position: int)
    requires
        0 <= position,
    ensures
        part_start(lengths, gap, 0) == 0,
        part_start(lengths, gap, position + 1) == part_start(lengths, gap, position)
            + lengths[position] + gap,
{
}

/// The texts of strings are those that the strings hold, one for one.
pub proof fn lemma_texts_are_plain(strings: Seq<String>)
    ensures
        texts(strings).len() == strings.len(),
        forall|i: int| 0 <= i < strings.len() ==> #[trigger] texts(strings)[i] == strings[i]@,
{
}

} // verus!
