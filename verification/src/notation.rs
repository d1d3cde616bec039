use vstd::prelude::*;
use vstd::string::*;

verus! {

/// The texts of a list of strings.
pub open spec fn views(v: Seq<String>) -> Seq<Seq<char>> {
    Seq::new(v.len(), |i: int| v[i]@)
}

/// The symbol that stands for the two letters of a "Qu" tile, on the board
/// and in the words.
pub const PLACEHOLDER: char = '_';

/// The lower-case form of a text, as `str::to_lowercase` of the standard
/// library gives it.
pub uninterp spec fn lowercase_of(text: Seq<char>) -> Seq<char>;

/// A row of the board as it is typed, with the placeholder for each `q`.
pub open spec fn with_qu_tiles(text: Seq<char>) -> Seq<char> {
    Seq::new(text.len(), |i: int| if text[i] == 'q' { PLACEHOLDER } else { text[i] })
}

/// A text with the placeholder for each pair `qu`.
pub open spec fn collapsed(text: Seq<char>) -> Seq<char>
    decreases text.len(),
{
    if text.len() == 0 {
        Seq::empty()
    } else if text.len() >= 2 && text[text.len() - 2] == 'q' && text[text.len() - 1] == 'u' {
        collapsed(text.take(text.len() - 2)).push(PLACEHOLDER)
    } else {
        collapsed(text.drop_last()).push(text.last())
    }
}

/// A text with the pair `qu` for each placeholder.
pub open spec fn expanded(text: Seq<char>) -> Seq<char>
    decreases text.len(),
{
    if text.len() == 0 {
        Seq::empty()
    } else if text.last() == PLACEHOLDER {
        expanded(text.drop_last()).push('q').push('u')
    } else {
        expanded(text.drop_last()).push(text.last())
    }
}

/// The fields of a text between its commas: one more than it has commas,
/// the empty ones included.
pub open spec fn comma_fields(text: Seq<char>) -> Seq<Seq<char>>
    decreases text.len(),
{
    if text.len() == 0 {
        seq![Seq::empty()]
    } else {
        let before = comma_fields(text.drop_last());
        if text.last() == ',' {
            before.push(Seq::empty())
        } else {
            before.drop_last().push(before.last().push(text.last()))
        }
    }
}

/// `String::push` of the standard library: the string afterwards is the
/// string before with `c` as one more symbol at its end.
#[verifier::external_body]
fn push_char(s: &mut String, c: char)
    ensures
        final(s)@ == old(s)@.push(c),
{
    s.push(c)
}

/// `str::to_lowercase` of the standard library: the result depends on the
/// text alone, and `lowercase_of` is the name of it. Nothing else is claimed.
#[verifier::external_body]
fn lowercase(text: &str) -> (lower: String)
    ensures
        lower@ == lowercase_of(text@),
{
    text.to_lowercase()
}

/// Puts the placeholder for each `q` of a row of the board.
pub fn mark_qu_tiles(row: &str) -> (marked: String)
    ensures
        marked@ == with_qu_tiles(row@),
{
    let mut marked = String::new();
    for c in it: row.chars()
        invariant
            it.seq() == row@,
            marked@ == with_qu_tiles(row@.take(it.index())),
    {
        if c == 'q' {
            push_char(&mut marked, PLACEHOLDER);
        } else {
            push_char(&mut marked, c);
        }
    }
    marked
}

/// A row of the board as the search wants it: in lower case, with the
/// placeholder for each `q`.
pub fn normalize_row(input: &str) -> (row: String)
    ensures
        row@ == with_qu_tiles(lowercase_of(input@)),
{
    let lower = lowercase(input);
    mark_qu_tiles(lower.as_str())
}

/// Puts the placeholder for each pair `qu` of a text.
pub fn collapse_qu(text: &str) -> (short: String)
    ensures
        short@ == collapsed(text@),
{
    let mut short = String::new();
    let mut pending = false;
    for c in it: text.chars()
        invariant
            it.seq() == text@,
            pending == (it.index() > 0 && text@[it.index() - 1] == 'q'),
            collapsed(text@.take(it.index())) == if pending {
                short@.push('q')
            } else {
                short@
            },
    {
        let ghost seen = text@.take(it.index());
        let ghost next = text@.take(it.index() + 1);
        assert(next.drop_last() =~= seen);
        if pending && c == 'u' {
            proof {
                assert(next.take(next.len() - 2) =~= seen.drop_last());
                assert(collapsed(seen.drop_last()).push('q').drop_last() =~= collapsed(
                    seen.drop_last(),
                ));
            }
            push_char(&mut short, PLACEHOLDER);
            pending = false;
        } else {
            if pending {
                push_char(&mut short, 'q');
            }
            if c == 'q' {
                pending = true;
            } else {
                push_char(&mut short, c);
                pending = false;
            }
        }
    }
    assert(text@.take(text@.len() as int) =~= text@);
    if pending {
        push_char(&mut short, 'q');
    }
    short
}

/// Cuts a text at its commas.
pub fn split_fields(text: &str) -> (fields: Vec<String>)
    ensures
        views(fields@) == comma_fields(text@),
{
    let mut fields: Vec<String> = Vec::new();
    let mut current = String::new();
    for c in it: text.chars()
        invariant
            it.seq() == text@,
            comma_fields(text@.take(it.index())) == views(fields@).push(current@),
    {
        assert(text@.take(it.index() + 1).drop_last() =~= text@.take(it.index()));
        if c == ',' {
            fields.push(current);
            current = String::new();
        } else {
            push_char(&mut current, c);
        }
    }
    assert(text@.take(text@.len() as int) =~= text@);
    fields.push(current);
    fields
}

/// The words of a word list as the search wants them: the text in lower
/// case, with the placeholder for each pair `qu`, cut at its commas.
pub fn parse_word_list(text: &str) -> (words: Vec<String>)
    ensures
        views(words@) == comma_fields(collapsed(lowercase_of(text@))),
{
    let lower = lowercase(text);
    let short = collapse_qu(lower.as_str());
    split_fields(short.as_str())
}

/// A word as it is shown: with the pair `qu` for each placeholder.
pub fn display_word(word: &str) -> (shown: String)
    ensures
        shown@ == expanded(word@),
{
    let mut shown = String::new();
    for c in it: word.chars()
        invariant
            it.seq() == word@,
            shown@ == expanded(word@.take(it.index())),
    {
        assert(word@.take(it.index() + 1).drop_last() =~= word@.take(it.index()));
        if c == PLACEHOLDER {
            push_char(&mut shown, 'q');
            push_char(&mut shown, 'u');
        } else {
            push_char(&mut shown, c);
        }
    }
    assert(word@.take(word@.len() as int) =~= word@);
    shown
}

/// Showing a word undoes what reading it did: a text without the
/// placeholder comes back from `collapsed` and `expanded` as it was.
pub proof fn lemma_expanded_undoes_collapsed(text: Seq<char>)
    requires
        !text.contains(PLACEHOLDER),
    ensures
        expanded(collapsed(text)) == text,
    decreases text.len(),
{
    if text.len() >= 2 && text[text.len() - 2] == 'q' && text[text.len() - 1] == 'u' {
        let head = text.take(text.len() - 2);
        lemma_expanded_undoes_collapsed(head);
        assert(collapsed(head).push(PLACEHOLDER).drop_last() =~= collapsed(head));
    } else if text.len() > 0 {
        let head = text.drop_last();
        lemma_expanded_undoes_collapsed(head);
        assert(collapsed(head).push(text.last()).drop_last() =~= collapsed(head));
    }
}

/// Reading a word undoes what showing it did: a word without the letter
/// `q` comes back from `expanded` and `collapsed` as it was.
pub proof fn lemma_collapsed_undoes_expanded(word: Seq<char>)
    requires
        !word.contains('q'),
    ensures
        collapsed(expanded(word)) == word,
    decreases word.len(),
{
    if word.len() > 0 {
        let head = word.drop_last();
        let c = word.last();
        lemma_collapsed_undoes_expanded(head);
        let shown = expanded(word);
        if c == PLACEHOLDER {
            assert(shown.take(shown.len() - 2) =~= expanded(head));
        } else {
            assert(shown.drop_last() =~= expanded(head));
        }
    }
}

/// Two different words without the letter `q` are shown differently.
pub proof fn lemma_shown_words_differ(first: Seq<char>, second: Seq<char>)
    requires
        !first.contains('q'),
        !second.contains('q'),
        first != second,
    ensures
        expanded(first) != expanded(second),
{
    lemma_collapsed_undoes_expanded(first);
    lemma_collapsed_undoes_expanded(second);
}

} // verus!
