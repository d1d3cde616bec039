use vstd::prelude::*;
use vstd::string::*;
use vstd::seq_lib::lemma_seq_contains_after_push;
use crate::board::Board;
use crate::notation::views;
use crate::wordset::WordSet;

verus! {

/// The least number of symbols in a word worth looking for.
pub const MIN_WORD_LEN: usize = 4;

/// Whether every symbol of `word` occurs in `symbols`.
pub open spec fn uses_only(word: Seq<char>, symbols: Seq<char>) -> bool {
    forall|i: int| 0 <= i < word.len() ==> symbols.contains(#[trigger] word[i])
}

/// Whether `word` could lie on `board` as far as its length and its symbols
/// go: it has at least `MIN_WORD_LEN` symbols and at most one for each cell,
/// and each of its symbols is on some cell. How often a symbol occurs does
/// not count.
pub open spec fn is_candidate(board: &Board, word: Seq<char>) -> bool {
    &&& MIN_WORD_LEN <= word.len() <= board.side() * board.side()
    &&& uses_only(word, board.cells())
}

/// The words of `list` that are candidates for `board`.
pub open spec fn candidate_set(board: &Board, list: Seq<Seq<char>>) -> Set<Seq<char>> {
    Set::new(|w: Seq<char>| list.contains(w) && is_candidate(board, w))
}

/// Whether `p` is a non-empty beginning of `w`, `w` itself included.
pub open spec fn is_prefix_of(p: Seq<char>, w: Seq<char>) -> bool {
    1 <= p.len() <= w.len() && w.take(p.len() as int) == p
}

/// Every non-empty beginning of every word of `words`.
pub open spec fn prefix_set(words: Set<Seq<char>>) -> Set<Seq<char>> {
    Set::new(|p: Seq<char>| exists|w: Seq<char>| words.contains(w) && is_prefix_of(p, w))
}

/// The symbols of `board`, each once.
pub fn alphabet(board: &Board) -> (symbols: Vec<char>)
    ensures
        symbols@.no_duplicates(),
        forall|c: char| #[trigger] symbols@.contains(c) <==> board.cells().contains(c),
{
    let cells = board.letters();
    let mut symbols: Vec<char> = Vec::new();
    for c in it: cells.chars()
        invariant
            it.seq() == cells@,
            symbols@.no_duplicates(),
            forall|d: char| #[trigger]
                symbols@.contains(d) <==> cells@.take(it.index()).contains(d),
    {
        let ghost seen = cells@.take(it.index());
        let ghost next = cells@.take(it.index() + 1);
        let ghost before = symbols@;
        assert(next == seen.push(c));
        if !has_symbol(&symbols, c) {
            symbols.push(c);
        }
        assert forall|d: char| #[trigger] symbols@.contains(d) <==> next.contains(d) by {
            lemma_seq_contains_after_push(seen, c, d);
            lemma_seq_contains_after_push(before, c, d);
        }
    }
    assert(cells@.take(cells@.len() as int) == cells@);
    symbols
}

/// Whether `c` is one of `symbols`.
pub fn has_symbol(symbols: &Vec<char>, c: char) -> (found: bool)
    ensures
        found == symbols@.contains(c),
{
    let mut i: usize = 0;
    while i < symbols.len()
        invariant
            i <= symbols.len(),
            !symbols@.take(i as int).contains(c),
        decreases symbols.len() - i,
    {
        if symbols[i] == c {
            return true;
        }
        i += 1;
    }
    assert(symbols@.take(i as int) == symbols@);
    false
}

/// Whether `word` has between `MIN_WORD_LEN` and `max_len` symbols, all of
/// them among `symbols`.
pub fn within_reach(word: &str, symbols: &Vec<char>, max_len: usize) -> (ok: bool)
    ensures
        ok == (MIN_WORD_LEN <= word@.len() <= max_len && uses_only(word@, symbols@)),
{
    let len = word.unicode_len();
    if len < MIN_WORD_LEN || len > max_len {
        return false;
    }
    for c in it: word.chars()
        invariant
            it.seq() == word@,
            uses_only(word@.take(it.index()), symbols@),
    {
        if !has_symbol(symbols, c) {
            assert(word@[it.index()] == c);
            return false;
        }
    }
    assert(word@.take(word@.len() as int) == word@);
    true
}

/// The candidate words for `board` among `word_list`: those with at least
/// `MIN_WORD_LEN` symbols and at most as many as the board has cells, made
/// of symbols of the board alone.
pub fn get_word_candidates(board: &Board, word_list: &Vec<String>) -> (words: WordSet)
    ensures
        words.wf(),
        words@ == candidate_set(board, views(word_list@)),
{
    proof {
        use_type_invariant(board);
    }
    let symbols = alphabet(board);
    let max_len = board.size() * board.size();
    let ghost list = views(word_list@);
    let mut words = WordSet::new();
    let mut i: usize = 0;
    while i < word_list.len()
        invariant
            i <= word_list.len(),
            list == views(word_list@),
            max_len == board.side() * board.side(),
            forall|c: char| #[trigger] symbols@.contains(c) <==> board.cells().contains(c),
            words.wf(),
            words@ == candidate_set(board, list.take(i as int)),
        decreases word_list.len() - i,
    {
        let word = &word_list[i];
        let ghost before = words@;
        if within_reach(word.as_str(), &symbols, max_len) {
            words.insert(word.clone());
        }
        proof {
            assert(list.take(i + 1) == list.take(i as int).push(word@));
            assert forall|w: Seq<char>|
                words@.contains(w) <==> #[trigger] candidate_set(board, list.take(i + 1)).contains(
                    w,
                ) by {
                lemma_seq_contains_after_push(list.take(i as int), word@, w);
                assert(before.contains(w) <==> candidate_set(board, list.take(i as int)).contains(w));
            }
        }
        i += 1;
    }
    assert(list.take(i as int) == list);
    words
}

/// Every non-empty beginning of every word of `words`, the words themselves
/// included.
pub fn get_prefixes(words: &WordSet) -> (prefixes: WordSet)
    requires
        words.wf(),
    ensures
        prefixes.wf(),
        prefixes@ == prefix_set(words@),
{
    let list = words.words();
    let ghost texts = words.listing();
    let mut prefixes = WordSet::new();
    let mut i: usize = 0;
    while i < list.len()
        invariant
            i <= list.len(),
            texts == views(list@),
            prefixes.wf(),
            forall|p: Seq<char>| #[trigger]
                prefixes@.contains(p) <==> exists|j: int|
                    0 <= j < i && is_prefix_of(p, #[trigger] texts[j]),
        decreases list.len() - i,
    {
        let word = list[i].as_str();
        let len = word.unicode_len();
        let mut k: usize = 0;
        while k < len
            invariant
                k <= len,
                len == word@.len(),
                i < list.len(),
                texts == views(list@),
                word@ == texts[i as int],
                prefixes.wf(),
                forall|p: Seq<char>| #[trigger]
                    prefixes@.contains(p) <==> (exists|j: int|
                        0 <= j < i && is_prefix_of(p, #[trigger] texts[j])) || (is_prefix_of(
                        p,
                        word@,
                    ) && p.len() <= k),
            decreases len - k,
        {
            k += 1;
            let prefix = String::from_str(word.substring_char(0, k));
            prefixes.insert(prefix);
        }
        i += 1;
    }
    prefixes
}

} // verus!
