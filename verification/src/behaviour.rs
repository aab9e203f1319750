//! What the steps of the synchronisation do, stated directly over their
//! inputs: which files are synchronised, how repeated words are numbered,
//! which lines moves leave empty, when the English file fits, and which
//! lines a release keeps.

use vstd::prelude::*;
use crate::sync::{
    count_word, english_synced, file_map, filled, is_new, last_old, last_ranked, moves, other_files,
    cut_word, ranked_at, stored, parsed, ranks_of, ranks_within, release_count,
    release_text, synced, with_keys, written, Change, MasView,
};
use crate::roundtrip::{distinct_words, lemma_distinct_ranks};
use crate::text::decimal;

verus! {

/// The language files synchronised besides English are `lang.on` for every
/// configured language other than `english`, in the configured order,
/// wherever `english` stands in the list.
pub proof fn law_other_files_skip_english(langs: Seq<Seq<char>>)
    ensures
        other_files(langs) == langs.filter(|l: Seq<char>| l != seq!['e', 'n', 'g', 'l', 'i', 's', 'h']).map_values(
            |l: Seq<char>| l + seq!['.', 'o', 'n'],
        ),
    decreases langs.len(),
{
    let p = |l: Seq<char>| l != seq!['e', 'n', 'g', 'l', 'i', 's', 'h'];
    let f = |l: Seq<char>| l + seq!['.', 'o', 'n'];
    reveal(Seq::filter);
    if langs.len() == 0 {
        assert(langs.filter(p).map_values(f) =~= Seq::<Seq<char>>::empty());
    } else {
        law_other_files_skip_english(langs.drop_last());
        let prev = langs.drop_last().filter(p);
        if p(langs.last()) {
            assert(langs.filter(p) == prev.push(langs.last()));
            assert(prev.push(langs.last()).map_values(f) =~= prev.map_values(f).push(f(langs.last())));
            assert(f(langs.last()) =~= langs.last() + seq!['.'] + seq!['o', 'n']);
        } else {
            assert(langs.filter(p) == prev);
        }
    }
}

/// The lines a language file is written with are those whose rank is kept,
/// in their order.
pub proof fn law_written_entries_are_kept_ones(es: Seq<(usize, MasView)>, keys: Set<usize>)
    ensures
        with_keys(es, keys) == es.filter(|e: (usize, MasView)| keys.contains(e.0)),
    decreases es.len(),
{
    reveal(Seq::filter);
    if es.len() > 0 {
        law_written_entries_are_kept_ones(es.drop_last(), keys);
    }
}

proof fn lemma_count_word_filter(es: Seq<(usize, MasView)>, w: Seq<char>)
    ensures
        count_word(es, w) == es.filter(|e: (usize, MasView)| e.1.word == w).len(),
    decreases es.len(),
{
    reveal(Seq::filter);
    if es.len() > 0 {
        lemma_count_word_filter(es.drop_last(), w);
    }
}

/// The text written for the entries `es`: one line `rank, word, sentence`
/// per entry, in order, where a word already written earlier anywhere in
/// the file (not only just before) is written `word-c`, `c` being the number
/// of earlier entries with that word; the placeholder word `w` is always
/// written as it is.
pub proof fn law_written_numbers_repeats(es: Seq<(usize, MasView)>)
    ensures
        es.len() == 0 ==> written(es) == Seq::<char>::empty(),
        es.len() > 0 ==> written(es) == written(es.drop_last()) + decimal(es.last().0 as nat) + seq![
            ',',
            ' ',
        ] + (if es.last().1.word == seq!['w'] || es.drop_last().filter(
            |e: (usize, MasView)| e.1.word == es.last().1.word,
        ).len() == 0 {
            es.last().1.word
        } else {
            es.last().1.word + seq!['-'] + decimal(
                es.drop_last().filter(|e: (usize, MasView)| e.1.word == es.last().1.word).len(),
            )
        }) + seq![',', ' '] + es.last().1.sentence + seq!['\n'],
{
    if es.len() > 0 {
        lemma_count_word_filter(es.drop_last(), es.last().1.word);
    }
}

proof fn lemma_last_old_at(cs: Seq<Change>, r: usize, t: int)
    requires
        0 <= t < cs.len(),
        cs[t].new == r,
        forall|u: int| t < u < cs.len() ==> (#[trigger] cs[u]).new != r,
    ensures
        last_old(cs, r) == cs[t].old,
    decreases cs.len(),
{
    if t < cs.len() - 1 {
        assert(cs[cs.len() - 1].new != r);
        let p = cs.drop_last();
        assert forall|u: int| t < u < p.len() implies (#[trigger] p[u]).new != r by {
            assert(p[u] == cs[u]);
        }
        assert(p[t] == cs[t]);
        lemma_last_old_at(p, r, t);
    }
}

/// What a language file other than English holds at rank `r` after the
/// moves `cs`, over the ranks 1 to `n`:
/// - a rank that moves reach holds the line of the last move to it,
///   renumbered, when every move to it brings the same word, and the
///   placeholder (`w`, `s`) when they clash;
/// - a rank that a move leaves and no move reaches holds the placeholder
///   if it is one of the ranks 1 to `n`, and nothing otherwise: the moved
///   line is found only at its new rank;
/// - a rank that no move touches keeps its line, and holds the placeholder
///   if it had none and is one of the ranks 1 to `n`.
pub proof fn law_synced_rank(l: Map<usize, MasView>, cs: Seq<Change>, n: int, r: usize)
    ensures
        forall|t: int|
            0 <= t < cs.len() && (#[trigger] cs[t]).new == r && (forall|u: int|
                t < u < cs.len() ==> (#[trigger] cs[u]).new != r) ==> {
                &&& synced(l, cs, n).contains_key(r)
                &&& synced(l, cs, n)[r] == if (forall|u: int|
                    0 <= u < cs.len() && (#[trigger] cs[u]).new == r ==> l[cs[u].old].word
                        == l[cs[t].old].word) {
                    MasView { rank: r, ..l[cs[t].old] }
                } else {
                    MasView { rank: r, word: seq!['w'], sentence: seq!['s'] }
                }
            },
        (forall|u: int| 0 <= u < cs.len() ==> (#[trigger] cs[u]).new != r) && (exists|t: int|
            0 <= t < cs.len() && (#[trigger] cs[t]).old == r) ==> {
            &&& synced(l, cs, n).contains_key(r) <==> 1 <= r <= n
            &&& 1 <= r <= n ==> synced(l, cs, n)[r] == MasView {
                rank: r,
                word: seq!['w'],
                sentence: seq!['s'],
            }
        },
        (forall|u: int| 0 <= u < cs.len() ==> (#[trigger] cs[u]).new != r && cs[u].old != r) ==> {
            &&& synced(l, cs, n).contains_key(r) <==> (1 <= r <= n || l.contains_key(r))
            &&& l.contains_key(r) ==> synced(l, cs, n)[r] == l[r]
            &&& !l.contains_key(r) && 1 <= r <= n ==> synced(l, cs, n)[r] == MasView {
                rank: r,
                word: seq!['w'],
                sentence: seq!['s'],
            }
        },
{
    assert forall|t: int|
        0 <= t < cs.len() && (#[trigger] cs[t]).new == r && (forall|u: int|
            t < u < cs.len() ==> (#[trigger] cs[u]).new != r) implies {
        &&& synced(l, cs, n).contains_key(r)
        &&& synced(l, cs, n)[r] == if (forall|u: int|
            0 <= u < cs.len() && (#[trigger] cs[u]).new == r ==> l[cs[u].old].word == l[cs[t].old].word) {
            MasView { rank: r, ..l[cs[t].old] }
        } else {
            MasView { rank: r, word: seq!['w'], sentence: seq!['s'] }
        }
    } by {
        lemma_last_old_at(cs, r, t);
        assert(is_new(cs, r));
    }
}

/// Whether the English file fits its word type depends only on the English
/// words and the store: the ranks at which the English lines stand play no
/// part. It fits when the store ranks every word it knows within 1 to `n`,
/// and not when it ranks an English word outside them.
pub proof fn law_english_fit_ignores_old_ranks(
    es: Seq<(usize, MasView)>,
    moved: Seq<(usize, MasView)>,
    store: Map<Seq<char>, usize>,
    n: int,
)
    requires
        moved.len() == es.len(),
        forall|i: int| 0 <= i < es.len() ==> (#[trigger] moved[i]).1.word == es[i].1.word,
    ensures
        ranks_within(moved, store, n) == ranks_within(es, store, n),
        (forall|w: Seq<char>| #[trigger] store.contains_key(w) ==> 1 <= store[w] <= n) ==> ranks_within(
            es,
            store,
            n,
        ),
        (exists|i: int|
            0 <= i < es.len() && store.contains_key((#[trigger] es[i]).1.word) && !(1 <= store[es[i].1.word]
                <= n)) ==> !ranks_within(es, store, n),
{
    if ranks_within(es, store, n) {
        assert forall|i: int| 0 <= i < moved.len() && store.contains_key((#[trigger] moved[i]).1.word) implies 1
            <= store[moved[i].1.word] <= n by {
            assert(moved[i].1.word == es[i].1.word);
        }
    }
    if ranks_within(moved, store, n) {
        assert forall|i: int| 0 <= i < es.len() && store.contains_key((#[trigger] es[i]).1.word) implies 1
            <= store[es[i].1.word] <= n by {
            assert(moved[i].1.word == es[i].1.word);
        }
    }
}

/// With the store that ranking a list of different words builds, and `n`
/// the number of words it ranks, every English file fits, whatever ranks
/// its lines stand at.
pub proof fn law_english_fits_distinct_words(list: Seq<Seq<char>>, es: Seq<(usize, MasView)>)
    requires
        list.len() <= usize::MAX,
        distinct_words(list),
    ensures
        ranks_within(es, ranks_of(Map::empty(), list), ranks_of(Map::empty(), list).len() as int),
{
    let store = ranks_of(Map::<Seq<char>, usize>::empty(), list);
    lemma_distinct_ranks(list);
    law_english_fit_ignores_old_ranks(es, es, store, store.len() as int);
    assert forall|w: Seq<char>| #[trigger] store.contains_key(w) implies 1 <= store[w] <= store.len() by {
        let i = choose|i: int| 0 <= i < list.len() && list[i] == w;
        assert(store[list[i]] == i + 1);
    }
}

/// A release keeps exactly the lines with a real word and a real sentence
/// (word other than `w`, sentence other than `s`), whatever their letters,
/// in order, each written `rank,word,sentence`; its count is their number.
pub proof fn law_release_keeps_filled_lines(lines: Seq<Seq<char>>)
    ensures
        release_count(lines) == lines.filter(
            |l: Seq<char>| parsed(l).word != seq!['w'] && parsed(l).sentence != seq!['s'],
        ).len(),
        release_text(lines) == lines.filter(
            |l: Seq<char>| parsed(l).word != seq!['w'] && parsed(l).sentence != seq!['s'],
        ).map_values(
            |l: Seq<char>|
                decimal(parsed(l).rank as nat) + seq![','] + parsed(l).word + seq![','] + parsed(l).sentence
                    + seq!['\n'],
        ).flatten_alt(),
    decreases lines.len(),
{
    let p = |l: Seq<char>| parsed(l).word != seq!['w'] && parsed(l).sentence != seq!['s'];
    let f = |l: Seq<char>|
        decimal(parsed(l).rank as nat) + seq![','] + parsed(l).word + seq![','] + parsed(l).sentence + seq!['\n'];
    reveal(Seq::filter);
    if lines.len() == 0 {
        assert(lines.filter(p).map_values(f) =~= Seq::<Seq<char>>::empty());
    } else {
        law_release_keeps_filled_lines(lines.drop_last());
        let prev = lines.drop_last().filter(p);
        if p(lines.last()) {
            assert(lines.filter(p) == prev.push(lines.last()));
            let m = prev.push(lines.last()).map_values(f);
            assert(m.drop_last() =~= prev.map_values(f));
            assert(m.last() == f(lines.last()));
        } else {
            assert(lines.filter(p) == prev);
        }
    }
}

/// The moves of the English file: for each English line, in order, whose
/// word the store ranks elsewhere than the line stands, one move from the
/// line's rank to the word's rank.
pub proof fn law_moves_are_misplaced_lines(es: Seq<(usize, MasView)>, store: Map<Seq<char>, usize>)
    ensures
        moves(es, store) == es.filter(
            |e: (usize, MasView)| store.contains_key(e.1.word) && store[e.1.word] != e.0,
        ).map_values(|e: (usize, MasView)| Change { new: store[e.1.word], old: e.0 }),
    decreases es.len(),
{
    let p = |e: (usize, MasView)| store.contains_key(e.1.word) && store[e.1.word] != e.0;
    let f = |e: (usize, MasView)| Change { new: store[e.1.word], old: e.0 };
    reveal(Seq::filter);
    if es.len() == 0 {
        assert(es.filter(p).map_values(f) =~= Seq::<Change>::empty());
    } else {
        law_moves_are_misplaced_lines(es.drop_last(), store);
        let prev = es.drop_last().filter(p);
        if p(es.last()) {
            assert(es.filter(p) == prev.push(es.last()));
            assert(prev.push(es.last()).map_values(f) =~= prev.map_values(f).push(f(es.last())));
        } else {
            assert(es.filter(p) == prev);
        }
    }
}

proof fn lemma_last_ranked_none(es: Seq<(usize, MasView)>, store: Map<Seq<char>, usize>, r: usize)
    requires
        forall|i: int| 0 <= i < es.len() ==> !ranked_at(store, #[trigger] es[i], r),
    ensures
        last_ranked(es, store, r) is None,
    decreases es.len(),
{
    if es.len() > 0 {
        assert(!ranked_at(store, es[es.len() - 1], r));
        let p = es.drop_last();
        assert forall|i: int| 0 <= i < p.len() implies !ranked_at(store, #[trigger] p[i], r) by {
            assert(p[i] == es[i]);
        }
        lemma_last_ranked_none(p, store, r);
    }
}

proof fn lemma_last_ranked_is(es: Seq<(usize, MasView)>, store: Map<Seq<char>, usize>, r: usize, t: int)
    requires
        0 <= t < es.len(),
        store.contains_key(es[t].1.word) && store[es[t].1.word] == r,
        forall|u: int| t < u < es.len() ==> !(store.contains_key((#[trigger] es[u]).1.word) && store[es[u].1.word] == r),
    ensures
        last_ranked(es, store, r) == Some(es[t].1),
    decreases es.len(),
{
    if t < es.len() - 1 {
        assert(!ranked_at(store, es[es.len() - 1], r));
        let p = es.drop_last();
        assert forall|u: int| t < u < p.len() implies !(store.contains_key((#[trigger] p[u]).1.word) && store[p[u].1.word] == r) by {
            assert(p[u] == es[u]);
        }
        assert(p[t] == es[t]);
        lemma_last_ranked_is(p, store, r, t);
    }
}

/// What the English file holds at rank `r` after synchronisation, for the
/// ranks 1 to `n` (and nothing else): the line of the last English entry
/// whose word the store ranks at `r`, or the placeholder (`w`, `s`) if
/// there is none; its word is replaced by the list word at position `r`
/// when the store ranks that word at `r`.
pub proof fn law_english_synced_rank(
    es: Seq<(usize, MasView)>,
    store: Map<Seq<char>, usize>,
    list: Seq<Seq<char>>,
    n: int,
    r: usize,
)
    ensures
        english_synced(es, store, list, n).contains_key(r) <==> 1 <= r <= n,
        1 <= r <= n && 1 <= r <= list.len() && store.contains_key(list[r - 1]) && store[list[r - 1]] == r
            ==> english_synced(es, store, list, n)[r].word == list[r - 1],
        forall|t: int|
            1 <= r <= n && 0 <= t < es.len() && store.contains_key((#[trigger] es[t]).1.word)
                && store[es[t].1.word] == r && (forall|u: int|
                t < u < es.len() ==> !(store.contains_key((#[trigger] es[u]).1.word) && store[es[u].1.word]
                    == r)) ==> {
                &&& english_synced(es, store, list, n)[r].sentence == es[t].1.sentence
                &&& english_synced(es, store, list, n)[r].rank == es[t].1.rank
                &&& !(1 <= r <= list.len() && store.contains_key(list[r - 1]) && store[list[r - 1]] == r)
                    ==> english_synced(es, store, list, n)[r].word == es[t].1.word
            },
        1 <= r <= n && (forall|t: int|
            0 <= t < es.len() ==> !(store.contains_key((#[trigger] es[t]).1.word) && store[es[t].1.word] == r))
            ==> {
            &&& english_synced(es, store, list, n)[r].sentence == seq!['s']
            &&& english_synced(es, store, list, n)[r].rank == r
            &&& !(1 <= r <= list.len() && store.contains_key(list[r - 1]) && store[list[r - 1]] == r)
                ==> english_synced(es, store, list, n)[r].word == seq!['w']
        },
{
    assert forall|t: int|
        1 <= r <= n && 0 <= t < es.len() && store.contains_key((#[trigger] es[t]).1.word)
            && store[es[t].1.word] == r && (forall|u: int|
            t < u < es.len() ==> !(store.contains_key((#[trigger] es[u]).1.word) && store[es[u].1.word] == r)) implies {
        &&& english_synced(es, store, list, n)[r].sentence == es[t].1.sentence
        &&& english_synced(es, store, list, n)[r].rank == es[t].1.rank
        &&& !(1 <= r <= list.len() && store.contains_key(list[r - 1]) && store[list[r - 1]] == r)
            ==> english_synced(es, store, list, n)[r].word == es[t].1.word
    } by {
        lemma_last_ranked_is(es, store, r, t);
    }
    if 1 <= r <= n && (forall|t: int|
        0 <= t < es.len() ==> !(store.contains_key((#[trigger] es[t]).1.word) && store[es[t].1.word] == r)) {
        assert forall|i: int| 0 <= i < es.len() implies !ranked_at(store, #[trigger] es[i], r) by {
            assert(!(store.contains_key(es[i].1.word) && store[es[i].1.word] == r));
        }
        lemma_last_ranked_none(es, store, r);
    }
}

proof fn lemma_file_map_at(lines: Seq<Seq<char>>, k: usize)
    ensures
        forall|t: int|
            0 <= t < lines.len() && stored(#[trigger] lines[t]).rank == k && (forall|u: int|
                t < u < lines.len() ==> stored(#[trigger] lines[u]).rank != k) ==> file_map(lines).contains_key(k)
                && file_map(lines)[k] == stored(lines[t]),
        (forall|t: int| 0 <= t < lines.len() ==> stored(#[trigger] lines[t]).rank != k) ==> !file_map(
            lines,
        ).contains_key(k),
    decreases lines.len(),
{
    if lines.len() > 0 {
        let p = lines.drop_last();
        lemma_file_map_at(p, k);
        assert forall|t: int|
            0 <= t < lines.len() && stored(#[trigger] lines[t]).rank == k && (forall|u: int|
                t < u < lines.len() ==> stored(#[trigger] lines[u]).rank != k) implies file_map(lines).contains_key(k)
            && file_map(lines)[k] == stored(lines[t]) by {
            if t < lines.len() - 1 {
                assert(stored(lines[lines.len() - 1]).rank != k);
                assert(p[t] == lines[t]);
                assert forall|u: int| t < u < p.len() implies stored(#[trigger] p[u]).rank != k by {
                    assert(p[u] == lines[u]);
                }
            }
        }
        if forall|t: int| 0 <= t < lines.len() ==> stored(#[trigger] lines[t]).rank != k {
            assert(stored(lines[lines.len() - 1]).rank != k);
            assert forall|t: int| 0 <= t < p.len() implies stored(#[trigger] p[t]).rank != k by {
                assert(p[t] == lines[t]);
            }
        }
    }
}

/// A language file as read, completed up to rank `max`: under each rank it
/// holds the last line that carries that rank; a rank that no line carries
/// holds the placeholder (`w`, `s`) if it is one of 1 to `max`, and nothing
/// otherwise.
pub proof fn law_read_file_rank(lines: Seq<Seq<char>>, max: int, k: usize)
    ensures
        forall|t: int|
            0 <= t < lines.len() && stored(#[trigger] lines[t]).rank == k && (forall|u: int|
                t < u < lines.len() ==> stored(#[trigger] lines[u]).rank != k) ==> filled(file_map(lines), max).contains_key(k)
                && filled(file_map(lines), max)[k] == stored(lines[t]),
        (forall|t: int| 0 <= t < lines.len() ==> stored(#[trigger] lines[t]).rank != k) ==> {
            &&& filled(file_map(lines), max).contains_key(k) <==> 1 <= k <= max
            &&& 1 <= k <= max ==> filled(file_map(lines), max)[k] == MasView {
                rank: k,
                word: seq!['w'],
                sentence: seq!['s'],
            }
        },
{
    lemma_file_map_at(lines, k);
}

/// The word kept for a written word is its part before the first `-`: a
/// prefix without `-`, which is all of the word or is followed by a `-`.
pub proof fn law_cut_word_before_dash(w: Seq<char>)
    ensures
        cut_word(w).len() <= w.len(),
        cut_word(w) == w.take(cut_word(w).len() as int),
        forall|j: int| 0 <= j < cut_word(w).len() ==> #[trigger] cut_word(w)[j] != '-',
        cut_word(w).len() < w.len() ==> w[cut_word(w).len() as int] == '-',
    decreases w.len(),
{
    crate::text::lemma_piece_len_bound(w, '-');
    if w.len() > 0 && w[0] != '-' {
        law_cut_word_before_dash(w.drop_first());
        let c = cut_word(w.drop_first());
        assert(cut_word(w) =~= seq![w[0]] + c);
        assert forall|j: int| 0 <= j < cut_word(w).len() implies #[trigger] cut_word(w)[j] != '-' by {
            if j > 0 {
                assert(cut_word(w)[j] == c[j - 1]);
            }
        }
        if cut_word(w).len() < w.len() {
            assert(w[cut_word(w).len() as int] == w.drop_first()[c.len() as int]);
        }
    }
}

} // verus!
