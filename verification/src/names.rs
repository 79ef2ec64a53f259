//! The names under which the two sources are shown.

use vstd::prelude::*;
use vstd::string::*;

verus! {

/// The number of characters that a shown name has at most.
pub const MAX_SOURCE_NAME_LEN: usize = 32;

/// Whether a character is an ASCII letter, digit, punctuation mark or blank.
pub open spec fn is_printable(character: char) -> bool {
    ' ' <= character <= '~'
}

/// The character shown for `character`.
pub open spec fn shown_char(character: char) -> char {
    if is_printable(character) {
        character
    } else {
        '?'
    }
}

/// The characters shown for those of `text`.
pub open spec fn shown_chars(text: Seq<char>) -> Seq<char> {
    text.map_values(|character: char| shown_char(character))
}

/// The name shown for `name`: one that is too long loses its end to three dots.
pub open spec fn sanitized(name: Seq<char>) -> Seq<char> {
    if name.len() <= MAX_SOURCE_NAME_LEN {
        shown_chars(name)
    } else {
        shown_chars(name.take(MAX_SOURCE_NAME_LEN - 3)) + "..."@
    }
}

/// The label of a source: its short name, and in brackets the name that it was given.
pub open spec fn label(short: Seq<char>, name: Seq<char>) -> Seq<char> {
    short + " ("@ + sanitized(name) + ")"@
}

/// The labels of the two sources.
pub open spec fn labels(names: Seq<String>) -> Seq<Seq<char>> {
    seq![label("S1"@, names[0]@), label("S2"@, names[1]@)]
}

/// Makes a name fit to be shown: every character that does not print becomes a question mark, and a
/// long name is cut.
pub fn sanitize_source_name(name: &str) -> (shown: String)
    ensures
        shown@ == sanitized(name@),
{
    let length: usize = name.unicode_len();
    let kept: usize = if length <= MAX_SOURCE_NAME_LEN {
        length
    } else {
        MAX_SOURCE_NAME_LEN - 3
    };
    let mut shown = String::new();
    let mut taken: usize = 0;
    while taken < kept
        invariant
            taken <= kept <= name@.len(),
            shown@ == shown_chars(name@.take(taken as int)),
        decreases kept - taken,
    {
        let character = name.get_char(taken);
        shown.push(
            if ' ' <= character && character <= '~' {
                character
            } else {
                '?'
            },
        );
        assert(name@.take(taken + 1) =~= name@.take(taken as int).push(character));
        taken += 1;
    }
    if length > MAX_SOURCE_NAME_LEN {
        shown.append("...");
    } else {
        assert(name@.take(taken as int) =~= name@);
    }
    shown
}

/// The label of a source.
fn source_label(short: &str, name: &str) -> (text: String)
    ensures
        text@ == label(short@, name@),
{
    let mut text = short.to_owned();
    text.append(" (");
    text.append(sanitize_source_name(name).as_str());
    text.append(")");
    text
}

/// The labels of the two sources.
pub fn source_labels(names: &[String; 2]) -> (shown: [String; 2])
    ensures
        crate::text::texts(shown@) == labels(names@),
{
    let shown = [source_label("S1", names[0].as_str()), source_label("S2", names[1].as_str())];
    assert(crate::text::texts(shown@) =~= labels(names@));
    shown
}

/// A shown name is short and prints.
pub proof fn lemma_sanitized_fits(name: Seq<char>)
    ensures
        sanitized(name).len() <= MAX_SOURCE_NAME_LEN,
        forall|i: int| 0 <= i < sanitized(name).len() ==> is_printable(#[trigger] sanitized(name)[i]),
{
    reveal_strlit("...");
}

/// A name that is short and prints is shown as it is.
pub proof fn lemma_printable_name_kept(name: Seq<char>)
    requires
        name.len() <= MAX_SOURCE_NAME_LEN,
        forall|i: int| 0 <= i < name.len() ==> is_printable(#[trigger] name[i]),
    ensures
        sanitized(name) == name,
{
    assert(shown_chars(name) =~= name);
}

/// To sanitize a name twice is to sanitize it once.
pub proof fn lemma_sanitized_twice(name: Seq<char>)
    ensures
        sanitized(sanitized(name)) == sanitized(name),
{
    lemma_sanitized_fits(name);
    lemma_printable_name_kept(sanitized(name));
}

/// A shown name, character by character: those from the blank to the tilde as they are, a question
/// mark for every other; of a name of more than 32 characters the first 29, and three dots.
pub proof fn lemma_sanitized_by_character(name: Seq<char>)
    ensures
        ({
            let shown = sanitized(name);
            let kept = if name.len() <= 32 { name.len() as int } else { 29 };
            &&& name.len() <= 32 ==> shown.len() == name.len()
            &&& name.len() > 32 ==> shown.len() == 32 && shown[29] == '.' && shown[30] == '.'
                && shown[31] == '.'
            &&& forall|i: int|
                0 <= i < kept ==> #[trigger] shown[i] == (if 0x20 <= name[i] as int <= 0x7e {
                    name[i]
                } else {
                    '?'
                })
        }),
{
    reveal_strlit("...");
}

/// The label of a source says which of the two it is, and the name that is shown for it.
pub proof fn lemma_labels_in_words(names: Seq<String>)
    ensures
        labels(names).len() == 2,
        labels(names)[0] == "S1"@ + " ("@ + sanitized(names[0]@) + ")"@,
        labels(names)[1] == "S2"@ + " ("@ + sanitized(names[1]@) + ")"@,
{
}

} // verus!
