use vstd::prelude::*;
use vstd::string::*;
use vstd::std_specs::iter::IteratorSpec;
use vstd::seq_lib::lemma_seq_contains_after_push;
use crate::notation::views;
use crate::wordset::WordSet;

verus! {

/// Whether `a` comes no later than `b` in the dictionary's order: symbol by
/// symbol from the left, the lower code first, a beginning before the whole.
pub open spec fn lex_le(a: Seq<char>, b: Seq<char>) -> bool
    decreases a.len(),
{
    if a.len() == 0 {
        true
    } else if b.len() == 0 {
        false
    } else if a[0] != b[0] {
        a[0] < b[0]
    } else {
        lex_le(a.skip(1), b.skip(1))
    }
}

/// Whether `a` may stand before `b` in a ranking: the longer word first,
/// and of two words of one length the one that the dictionary has first.
pub open spec fn ranks_no_later(a: Seq<char>, b: Seq<char>) -> bool {
    a.len() > b.len() || (a.len() == b.len() && lex_le(a, b))
}

/// Whether `list` is a ranking: each word stands before every word that it
/// ranks before, and no word stands twice.
pub open spec fn ranked(list: Seq<Seq<char>>) -> bool {
    forall|i: int, j: int|
        0 <= i < j < list.len() ==> ranks_no_later(#[trigger] list[i], #[trigger] list[j])
            && list[i] != list[j]
}

/// Of two words, one comes no later than the other.
pub proof fn lemma_lex_total(a: Seq<char>, b: Seq<char>)
    ensures
        lex_le(a, b) || lex_le(b, a),
    decreases a.len(),
{
    if a.len() > 0 && b.len() > 0 && a[0] == b[0] {
        lemma_lex_total(a.skip(1), b.skip(1));
    }
}

/// Two words that each come no later than the other are one word.
pub proof fn lemma_lex_antisymmetric(a: Seq<char>, b: Seq<char>)
    requires
        lex_le(a, b),
        lex_le(b, a),
    ensures
        a == b,
    decreases a.len(),
{
    if a.len() == 0 || b.len() == 0 {
        assert(a =~= b);
    } else {
        lemma_lex_antisymmetric(a.skip(1), b.skip(1));
        assert(a =~= seq![a[0]] + a.skip(1));
        assert(b =~= seq![b[0]] + b.skip(1));
    }
}

/// What comes no later than a word comes no later than all that the word
/// comes no later than.
pub proof fn lemma_lex_transitive(a: Seq<char>, b: Seq<char>, c: Seq<char>)
    requires
        lex_le(a, b),
        lex_le(b, c),
    ensures
        lex_le(a, c),
    decreases a.len(),
{
    if a.len() > 0 && b.len() > 0 && c.len() > 0 && a[0] == b[0] && b[0] == c[0] {
        lemma_lex_transitive(a.skip(1), b.skip(1), c.skip(1));
    }
}

/// Leaving out a common beginning does not change the order of two words.
proof fn lemma_lex_skip(a: Seq<char>, b: Seq<char>, k: int)
    requires
        0 <= k <= a.len(),
        k <= b.len(),
        a.take(k) == b.take(k),
    ensures
        lex_le(a, b) == lex_le(a.skip(k), b.skip(k)),
    decreases k,
{
    if k == 0 {
        assert(a.skip(0) =~= a);
        assert(b.skip(0) =~= b);
    } else {
        assert(a.take(k - 1) =~= a.take(k).take(k - 1));
        assert(b.take(k - 1) =~= b.take(k).take(k - 1));
        lemma_lex_skip(a, b, k - 1);
        let x = a.skip(k - 1);
        let y = b.skip(k - 1);
        assert(x[0] == a.take(k)[k - 1]);
        assert(y[0] == b.take(k)[k - 1]);
        assert(x.skip(1) =~= a.skip(k));
        assert(y.skip(1) =~= b.skip(k));
    }
}

/// Whether `a` may stand before `b` in a ranking.
pub fn comes_no_later(a: &str, b: &str) -> (r: bool)
    ensures
        r == ranks_no_later(a@, b@),
{
    broadcast use vstd::string::group_string_axioms;

    let a_len = a.unicode_len();
    let b_len = b.unicode_len();
    if a_len != b_len {
        return a_len > b_len;
    }
    let mut a_rest = a.chars();
    let mut b_rest = b.chars();
    let ghost mut k: int = 0;
    loop
        invariant
            a@.len() == b@.len(),
            0 <= k <= a@.len(),
            a@.take(k) == b@.take(k),
            a_rest.obeys_prophetic_iter_laws(),
            b_rest.obeys_prophetic_iter_laws(),
            a_rest.remaining() == a@.skip(k),
            b_rest.remaining() == b@.skip(k),
            a_rest.decrease() is Some,
        decreases a_rest.decrease()->0,
    {
        proof {
            lemma_lex_skip(a@, b@, k);
        }
        match a_rest.next() {
            None => {
                return true;
            },
            Some(x) => {
                match b_rest.next() {
                    None => {
                        return false;
                    },
                    Some(y) => {
                        if x != y {
                            return x < y;
                        }
                        proof {
                            assert(a@.take(k + 1) =~= a@.take(k).push(x));
                            assert(b@.take(k + 1) =~= b@.take(k).push(y));
                            assert(a@.skip(k).drop_first() =~= a@.skip(k + 1));
                            assert(b@.skip(k).drop_first() =~= b@.skip(k + 1));
                            k = k + 1;
                        }
                    },
                }
            },
        }
    }
}

/// A word may stand before all that stands behind a word that it may stand
/// before.
pub proof fn lemma_rank_transitive(a: Seq<char>, b: Seq<char>, c: Seq<char>)
    requires
        ranks_no_later(a, b),
        ranks_no_later(b, c),
    ensures
        ranks_no_later(a, c),
{
    if a.len() == b.len() && b.len() == c.len() {
        lemma_lex_transitive(a, b, c);
    }
}

/// Putting a new word into a ranking, behind the words that may stand before
/// it and before the first word that may not, gives a ranking.
proof fn lemma_insert_keeps_ranked(list: Seq<Seq<char>>, pos: int, word: Seq<char>)
    requires
        ranked(list),
        0 <= pos <= list.len(),
        !list.contains(word),
        forall|t: int| 0 <= t < pos ==> ranks_no_later(#[trigger] list[t], word),
        pos < list.len() ==> !ranks_no_later(list[pos], word),
    ensures
        ranked(list.insert(pos, word)),
        forall|w: Seq<char>| #[trigger]
            list.insert(pos, word).contains(w) <==> w == word || list.contains(w),
{
    let longer = list.insert(pos, word);
    assert forall|i: int, j: int| 0 <= i < j < longer.len() implies ranks_no_later(
        #[trigger] longer[i],
        #[trigger] longer[j],
    ) && longer[i] != longer[j] by {
        if j < pos {
            assert(longer[i] == list[i] && longer[j] == list[j]);
        } else if j == pos {
            assert(longer[i] == list[i]);
            assert(list.contains(list[i]));
        } else {
            assert(longer[j] == list[j - 1]);
            assert(list.contains(list[j - 1]));
            if i < pos {
                assert(longer[i] == list[i]);
            } else if i == pos {
                lemma_lex_total(word, list[pos]);
                if pos < j - 1 {
                    lemma_rank_transitive(word, list[pos], list[j - 1]);
                }
            } else {
                assert(longer[i] == list[i - 1]);
            }
        }
    }
    assert forall|w: Seq<char>| #[trigger]
        longer.contains(w) <==> w == word || list.contains(w) by {
        if longer.contains(w) {
            let t = choose|t: int| 0 <= t < longer.len() && longer[t] == w;
            if t < pos {
                assert(list[t] == w);
            } else if t > pos {
                assert(list[t - 1] == w);
            }
        }
        if w == word {
            assert(longer[pos] == w);
        }
        if list.contains(w) {
            let t = choose|t: int| 0 <= t < list.len() && list[t] == w;
            if t < pos {
                assert(longer[t] == w);
            } else {
                assert(longer[t + 1] == w);
            }
        }
    }
}

/// The words of `words` as a ranking: the longest first, and words of one
/// length in the dictionary's order.
pub fn rank_words(words: &WordSet) -> (ranking: Vec<String>)
    requires
        words.wf(),
    ensures
        ranked(views(ranking@)),
        forall|w: Seq<char>| #[trigger] views(ranking@).contains(w) <==> words@.contains(w),
{
    let list = words.words();
    let ghost texts = words.listing();
    let mut ranking: Vec<String> = Vec::new();
    let mut i: usize = 0;
    while i < list.len()
        invariant
            i <= list.len(),
            texts == views(list@),
            texts.no_duplicates(),
            ranked(views(ranking@)),
            forall|w: Seq<char>| #[trigger]
                views(ranking@).contains(w) <==> texts.take(i as int).contains(w),
        decreases list.len() - i,
    {
        let word = &list[i];
        assert(word@ == texts[i as int]);
        let ghost before = views(ranking@);
        let mut pos: usize = 0;
        while pos < ranking.len() && comes_no_later(ranking[pos].as_str(), word.as_str())
            invariant
                pos <= ranking.len(),
                before == views(ranking@),
                forall|t: int| 0 <= t < pos ==> ranks_no_later(#[trigger] before[t], word@),
            decreases ranking.len() - pos,
        {
            pos += 1;
        }
        ranking.insert(pos, word.clone());
        proof {
            assert(views(ranking@) =~= before.insert(pos as int, word@));
            lemma_insert_keeps_ranked(before, pos as int, word@);
            assert(texts.take(i + 1) =~= texts.take(i as int).push(word@));
            assert forall|w: Seq<char>| #[trigger]
                views(ranking@).contains(w) <==> texts.take(i + 1).contains(w) by {
                lemma_seq_contains_after_push(texts.take(i as int), word@, w);
            }
        }
        i += 1;
    }
    proof {
        assert(texts.take(i as int) =~= texts);
    }
    ranking
}

/// Two rankings of the same words are the same.
pub proof fn lemma_ranking_unique(first: Seq<Seq<char>>, second: Seq<Seq<char>>)
    requires
        ranked(first),
        ranked(second),
        forall|w: Seq<char>| first.contains(w) <==> second.contains(w),
    ensures
        first == second,
    decreases first.len(),
{
    if first.len() == 0 {
        if second.len() > 0 {
            assert(second.contains(second[0]));
        }
        assert(first =~= second);
    } else if second.len() == 0 {
        assert(first.contains(first[0]));
    } else {
        let a = first[0];
        let b = second[0];
        assert(first.contains(a));
        assert(second.contains(b));
        let i = choose|i: int| 0 <= i < first.len() && first[i] == b;
        let j = choose|j: int| 0 <= j < second.len() && second[j] == a;
        if a != b {
            assert(ranks_no_later(first[0], first[i]));
            assert(ranks_no_later(second[0], second[j]));
            lemma_lex_antisymmetric(a, b);
        }
        let first_rest = first.skip(1);
        let second_rest = second.skip(1);
        assert forall|w: Seq<char>| first_rest.contains(w) <==> second_rest.contains(w) by {
            if first_rest.contains(w) {
                let t = choose|t: int| 0 <= t < first_rest.len() && first_rest[t] == w;
                assert(first[t + 1] == w);
                assert(first.contains(w));
                let u = choose|u: int| 0 <= u < second.len() && second[u] == w;
                assert(second_rest[u - 1] == w);
            }
            if second_rest.contains(w) {
                let t = choose|t: int| 0 <= t < second_rest.len() && second_rest[t] == w;
                assert(second[t + 1] == w);
                assert(second.contains(w));
                let u = choose|u: int| 0 <= u < first.len() && first[u] == w;
                assert(first_rest[u - 1] == w);
            }
        }
        assert forall|x: int, y: int| 0 <= x < y < first_rest.len() implies ranks_no_later(
            #[trigger] first_rest[x],
            #[trigger] first_rest[y],
        ) && first_rest[x] != first_rest[y] by {
            assert(first_rest[x] == first[x + 1] && first_rest[y] == first[y + 1]);
        }
        assert forall|x: int, y: int| 0 <= x < y < second_rest.len() implies ranks_no_later(
            #[trigger] second_rest[x],
            #[trigger] second_rest[y],
        ) && second_rest[x] != second_rest[y] by {
            assert(second_rest[x] == second[x + 1] && second_rest[y] == second[y + 1]);
        }
        lemma_ranking_unique(first_rest, second_rest);
        assert(first =~= seq![a] + first_rest);
        assert(second =~= seq![b] + second_rest);
    }
}

} // verus!
