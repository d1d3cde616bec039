use vstd::prelude::*;
use crate::board::Board;
use crate::notation::views;
use crate::dictionary::{get_prefixes, get_word_candidates, is_candidate, MIN_WORD_LEN};
use crate::ranking::{lemma_ranking_unique, rank_words, ranked, ranks_no_later};
use crate::search::{
    lemma_search_finds_traced_words, lemma_traced_word_fits_board, search_board, traceable,
};

verus! {

/// Whether `answer` is what the search owes for `board` and `word_list`: the
/// candidate words of the list that some walk over the board spells, each
/// once, as a ranking.
pub open spec fn is_solution(
    board: &Board,
    word_list: Seq<Seq<char>>,
    answer: Seq<Seq<char>>,
) -> bool {
    &&& ranked(answer)
    &&& forall|w: Seq<char>| #[trigger]
        answer.contains(w) <==> word_list.contains(w) && is_candidate(board, w) && traceable(
            board,
            w,
        )
}

/// Finds the words of `word_list` on `board`: keeps the candidate words,
/// indexes their beginnings, searches the board from every cell, and ranks
/// what was found, the longest first and words of one length in the
/// dictionary's order.
pub fn find_words(board: &Board, word_list: &Vec<String>) -> (answer: Vec<String>)
    ensures
        is_solution(board, views(word_list@), views(answer@)),
        forall|i: int|
            0 <= i < answer.len() ==> MIN_WORD_LEN <= (#[trigger] answer[i])@.len() <= board.side()
                * board.side(),
        forall|i: int| 0 <= i < answer.len() ==> traceable(board, (#[trigger] answer[i])@),
        forall|i: int, j: int|
            0 <= i < j < answer.len() ==> (#[trigger] answer[i])@ != (#[trigger] answer[j])@,
        forall|i: int, j: int|
            0 <= i && j == i + 1 && j < answer.len() ==> ranks_no_later(
                (#[trigger] answer[i])@,
                (#[trigger] answer[j])@,
            ),
{
    let words = get_word_candidates(board, word_list);
    let prefixes = get_prefixes(&words);
    let results = search_board(board, &words, &prefixes);
    let answer = rank_words(&results);
    proof {
        use_type_invariant(board);
        lemma_search_finds_traced_words(board, words@, prefixes@);
        let texts = views(answer@);
        assert forall|i: int| 0 <= i < answer.len() implies MIN_WORD_LEN <= (
        #[trigger] answer[i])@.len() <= board.side() * board.side() && traceable(
            board,
            answer[i]@,
        ) by {
            assert(texts[i] == answer[i]@);
            assert(texts.contains(texts[i]));
        }
        assert forall|i: int, j: int| 0 <= i < j < answer.len() implies (#[trigger] answer[i])@ != (
        #[trigger] answer[j])@ && ranks_no_later(answer[i]@, answer[j]@) by {
            assert(texts[i] == answer[i]@ && texts[j] == answer[j]@);
        }
    }
    answer
}

/// The answer is decided by the board and the word list: two answers to one
/// question are the same words in the same order.
pub proof fn lemma_solution_unique(
    board: &Board,
    word_list: Seq<Seq<char>>,
    first: Seq<Seq<char>>,
    second: Seq<Seq<char>>,
)
    requires
        is_solution(board, word_list, first),
        is_solution(board, word_list, second),
    ensures
        first == second,
{
    lemma_ranking_unique(first, second);
}

/// The filter loses nothing. The answer holds every word of the list with at
/// least `MIN_WORD_LEN` symbols that some walk over the board spells.
pub proof fn lemma_solution_is_complete(
    board: &Board,
    word_list: Seq<Seq<char>>,
    answer: Seq<Seq<char>>,
)
    requires
        board.wf(),
        is_solution(board, word_list, answer),
    ensures
        forall|w: Seq<char>| #[trigger]
            answer.contains(w) <==> word_list.contains(w) && w.len() >= MIN_WORD_LEN && traceable(
                board,
                w,
            ),
{
    assert forall|w: Seq<char>| #[trigger]
        answer.contains(w) <==> word_list.contains(w) && w.len() >= MIN_WORD_LEN && traceable(
            board,
            w,
        ) by {
        if traceable(board, w) {
            lemma_traced_word_fits_board(board, w);
        }
    }
}

} // verus!
