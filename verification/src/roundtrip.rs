//! What synchronisation writes reads back: the text that
//! [`App::compose`](crate::sync::App::compose) writes for a language file is
//! read by [`Lang::new`](crate::sync::Lang::new) into the same lines, with
//! the numbering of repeated words taken off again. A second
//! synchronisation with the same words therefore rewrites the same texts.

use vstd::prelude::*;
use crate::ranks::RankMap;
use crate::sync::{
    agree, count_word, cut_word, english_synced, fields_of, file_map, filled, first_word, has_rank,
    is_new, label, last_old, last_ranked, law_ranks_are_last_positions, lemma_with_keys_sorted,
    line_ok, lines_of, moved_english, moves, owner, placeholder, rank_range, ranked_at, ranks_of,
    ranks_within, sentence_of, stored, synced, with_keys, written, written_line, Change, MasView,
    MAX_SENTENCE,
};
use crate::text::{
    decimal, is_word, is_ws, join, kept_parts, law_decimal_parses_back, lead_ws_len,
    lemma_decimal_digits, lemma_join_spaced, lemma_lead_ws_is, lemma_piece_len_is,
    lemma_trail_ws_is, lemma_ws_split_word, lemma_ws_split_words, piece_len, split_char,
    trail_ws_len, trim, utf8_len, word_len, ws_split,
};

verus! {

/// No character of `s` is `c`.
pub open spec fn lacks(s: Seq<char>, c: char) -> bool {
    forall|j: int| 0 <= j < s.len() ==> #[trigger] s[j] != c
}

/// A normalised sentence: words separated by single spaces, at least one
/// word, no comma.
pub open spec fn is_sentence(s: Seq<char>) -> bool {
    &&& ws_split(s).len() > 0
    &&& sentence_of(s) == s
    &&& lacks(s, ',')
}

/// A word that a language file can be written with: one word, without
/// comma or dash.
pub open spec fn writable_word(w: Seq<char>) -> bool {
    &&& is_word(w)
    &&& lacks(w, ',')
    &&& lacks(w, '-')
}

/// The sentence of `m` is normalised and fits in a language file.
pub open spec fn sentence_fits(m: MasView) -> bool {
    &&& is_sentence(m.sentence)
    &&& utf8_len(m.sentence) <= MAX_SENTENCE
}

/// An entry that a language file can be written with: its word is one word
/// without comma or dash, its sentence is normalised and fits.
pub open spec fn writable(e: (usize, MasView)) -> bool {
    &&& writable_word(e.1.word)
    &&& sentence_fits(e.1)
}

/// The entries as a map: each entry under its rank, with that rank as the
/// line's rank; a later entry replaces an earlier one with the same rank.
pub open spec fn read_back(es: Seq<(usize, MasView)>) -> Map<usize, MasView>
    decreases es.len(),
{
    if es.len() == 0 {
        Map::empty()
    } else {
        read_back(es.drop_last()).insert(es.last().0, MasView { rank: es.last().0, ..es.last().1 })
    }
}

/// The lines of the written text of `es`, without their line breaks.
pub open spec fn line_seq(es: Seq<(usize, MasView)>) -> Seq<Seq<char>>
    decreases es.len(),
{
    if es.len() == 0 {
        seq![]
    } else {
        line_seq(es.drop_last()).push(
            written_line(es.last(), count_word(es.drop_last(), es.last().1.word)).drop_last(),
        )
    }
}

proof fn lemma_piece_len_lacks(x: Seq<char>, sep: char)
    requires
        lacks(x, sep),
    ensures
        piece_len(x, sep) == x.len(),
{
    lemma_piece_len_is(x, sep, x.len() as int);
}

/// Splitting after a separator splits the pieces.
proof fn lemma_split_char_append(x: Seq<char>, y: Seq<char>, sep: char)
    requires
        x.len() == 0 || x.last() == sep,
    ensures
        split_char(x + y, sep) == split_char(x, sep).drop_last() + split_char(y, sep),
    decreases x.len(),
{
    if x.len() == 0 {
        assert(x + y =~= y);
        assert(split_char(x, sep) =~= seq![x]) by {
            lemma_piece_len_lacks(x, sep);
        }
        assert(split_char(x, sep).drop_last() + split_char(y, sep) =~= split_char(y, sep));
    } else {
        let n = find_sep(x, sep);
        lemma_find_sep(x, sep);
        lemma_piece_len_is(x, sep, n);
        assert forall|k: int| 0 <= k < n implies #[trigger] (x + y)[k] != sep by {
            assert((x + y)[k] == x[k]);
        }
        assert((x + y)[n] == x[n]);
        lemma_piece_len_is(x + y, sep, n);
        assert((x + y).take(n) =~= x.take(n));
        assert((x + y).skip(n + 1) =~= x.skip(n + 1) + y);
        let rest = x.skip(n + 1);
        if rest.len() > 0 {
            assert(rest.last() == x.last());
        }
        lemma_split_char_append(rest, y, sep);
        assert(split_char(x, sep) == seq![x.take(n)] + split_char(rest, sep));
        lemma_split_char_nonempty(rest, sep);
        assert((seq![x.take(n)] + split_char(rest, sep)).drop_last() =~= seq![x.take(n)] + split_char(
            rest,
            sep,
        ).drop_last());
        assert(split_char(x + y, sep) =~= seq![x.take(n)] + (split_char(rest, sep).drop_last()
            + split_char(y, sep)));
    }
}

proof fn lemma_split_char_nonempty(x: Seq<char>, sep: char)
    ensures
        split_char(x, sep).len() > 0,
    decreases x.len(),
{
    crate::text::lemma_piece_len_bound(x, sep);
    let n = piece_len(x, sep);
    if n < x.len() {
        lemma_split_char_nonempty(x.skip(n + 1 as int), sep);
    }
}

/// The position of the first `sep` in `x`, which ends with `sep`.
spec fn find_sep(x: Seq<char>, sep: char) -> int
    recommends
        x.len() > 0 && x.last() == sep,
{
    choose|n: int|
        0 <= n < x.len() && x[n] == sep && forall|k: int| 0 <= k < n ==> #[trigger] x[k] != sep
}

proof fn lemma_find_sep(x: Seq<char>, sep: char)
    requires
        x.len() > 0,
        x.last() == sep,
    ensures
        0 <= find_sep(x, sep) < x.len(),
        x[find_sep(x, sep)] == sep,
        forall|k: int| 0 <= k < find_sep(x, sep) ==> #[trigger] x[k] != sep,
{
    let witness = first_sep(x, sep, 0);
    assert(exists|n: int|
        0 <= n < x.len() && x[n] == sep && forall|k: int| 0 <= k < n ==> #[trigger] x[k] != sep);
}

/// The first `sep` in `x` at or after `from`, when there is one.
proof fn first_sep(x: Seq<char>, sep: char, from: int) -> (n: int)
    requires
        0 <= from < x.len(),
        x.last() == sep,
        forall|k: int| 0 <= k < from ==> #[trigger] x[k] != sep,
    ensures
        from <= n < x.len(),
        x[n] == sep,
        forall|k: int| 0 <= k < n ==> #[trigger] x[k] != sep,
    decreases x.len() - from,
{
    if x[from] == sep {
        from
    } else {
        first_sep(x, sep, from + 1)
    }
}

proof fn lemma_split_char_lacking(x: Seq<char>, sep: char)
    requires
        lacks(x, sep),
    ensures
        split_char(x, sep) == seq![x],
        split_char(x + seq![sep], sep) == seq![x, Seq::<char>::empty()],
{
    lemma_piece_len_lacks(x, sep);
    assert(x.take(x.len() as int) =~= x);
    let xs = x + seq![sep];
    assert forall|k: int| 0 <= k < x.len() implies #[trigger] xs[k] != sep by {
        assert(xs[k] == x[k]);
    }
    lemma_piece_len_is(xs, sep, x.len() as int);
    assert(xs.take(x.len() as int) =~= x);
    assert(xs.skip(x.len() + 1 as int) =~= Seq::<char>::empty());
    lemma_piece_len_lacks(Seq::<char>::empty(), sep);
    assert(split_char(Seq::<char>::empty(), sep) =~= seq![Seq::<char>::empty()]);
    assert(split_char(xs, sep) =~= seq![x, Seq::<char>::empty()]);
}

/// Whitespace before a text with no whitespace at either end is trimmed away.
proof fn lemma_trim_pad(p: Seq<char>, t: Seq<char>)
    requires
        forall|j: int| 0 <= j < p.len() ==> is_ws(#[trigger] p[j]),
        t.len() > 0,
        !is_ws(t[0]),
        !is_ws(t.last()),
    ensures
        trim(p + t) == t,
{
    let s = p + t;
    assert forall|k: int| 0 <= k < p.len() implies is_ws(#[trigger] s[k]) by {
        assert(s[k] == p[k]);
    }
    assert(s[p.len() as int] == t[0]);
    lemma_lead_ws_is(s, p.len() as int);
    assert(s[s.len() - 1] == t.last());
    lemma_trail_ws_is(s, 0);
    assert(s.subrange(p.len() as int, s.len() as int) =~= t);
}

proof fn lemma_sentence_shape(s: Seq<char>)
    requires
        is_sentence(s),
    ensures
        s.len() > 0,
        !is_ws(s[0]),
        !is_ws(s.last()),
        lacks(s, '\n'),
{
    lemma_ws_split_words(s);
    lemma_join_spaced(ws_split(s));
    assert forall|j: int| 0 <= j < s.len() implies #[trigger] s[j] != '\n' by {
        assert(is_ws(s[j]) ==> s[j] == ' ');
    }
}

proof fn lemma_word_shape(w: Seq<char>)
    requires
        is_word(w),
    ensures
        !is_ws(w[0]),
        !is_ws(w.last()),
        lacks(w, '\n'),
{
    assert(!is_ws(w[w.len() - 1]));
    assert forall|j: int| 0 <= j < w.len() implies #[trigger] w[j] != '\n' by {
        assert(!is_ws(w[j]));
    }
}

/// The written label of a word is one word, without comma, that the dash
/// cut turns back into the word.
proof fn lemma_label_shape(w: Seq<char>, c: nat)
    requires
        is_word(w),
        lacks(w, ','),
        lacks(w, '-'),
    ensures
        is_word(label(w, c)),
        lacks(label(w, c), ','),
        cut_word(label(w, c)) == w,
{
    let l = label(w, c);
    if l == w {
        lemma_piece_len_lacks(w, '-');
        assert(w.take(w.len() as int) =~= w);
    } else {
        let d = decimal(c);
        lemma_decimal_digits(c);
        assert(l == w + seq!['-'] + d);
        assert forall|j: int| 0 <= j < l.len() implies !is_ws(#[trigger] l[j]) && l[j] != ',' by {
            if j < w.len() {
                assert(l[j] == w[j]);
            } else if j > w.len() {
                assert(l[j] == d[j - w.len() - 1]);
                assert(crate::text::is_digit(d[j - w.len() - 1]));
            }
        }
        assert forall|k: int| 0 <= k < w.len() implies #[trigger] l[k] != '-' by {
            assert(l[k] == w[k]);
        }
        lemma_piece_len_is(l, '-', w.len() as int);
        assert(l.take(w.len() as int) =~= w);
    }
}

/// The line, without its line break, that an entry is written as.
pub open spec fn bare_line(e: (usize, MasView), c: nat) -> Seq<char> {
    written_line(e, c).drop_last()
}

/// A field: not empty, no whitespace at either end, no comma.
pub open spec fn is_field(x: Seq<char>) -> bool {
    &&& x.len() > 0
    &&& !is_ws(x[0])
    &&& !is_ws(x.last())
    &&& lacks(x, ',')
}

/// Three fields written with `, ` between them read back as those fields.
proof fn lemma_three_fields(a: Seq<char>, b: Seq<char>, c: Seq<char>)
    requires
        is_field(a),
        is_field(b),
        is_field(c),
    ensures
        fields_of(a + seq![',', ' '] + b + seq![',', ' '] + c) == seq![a, b, c],
{
    let l = a + seq![',', ' '] + b + seq![',', ' '] + c;
    let a1 = a + seq![','];
    let lb = seq![' '] + b;
    let b1 = lb + seq![','];
    let c1 = seq![' '] + c;
    assert(l =~= a1 + (b1 + c1));
    lemma_split_char_lacking(a, ',');
    assert forall|j: int| 0 <= j < lb.len() implies #[trigger] lb[j] != ',' by {
        if j > 0 {
            assert(lb[j] == b[j - 1]);
        }
    }
    lemma_split_char_lacking(lb, ',');
    assert forall|j: int| 0 <= j < c1.len() implies #[trigger] c1[j] != ',' by {
        if j > 0 {
            assert(c1[j] == c[j - 1]);
        }
    }
    lemma_split_char_lacking(c1, ',');
    lemma_split_char_append(a1, b1 + c1, ',');
    lemma_split_char_append(b1, c1, ',');
    let pieces = seq![a, lb, c1];
    assert(split_char(l, ',') =~= pieces);
    lemma_trim_pad(Seq::<char>::empty(), a);
    assert(Seq::<char>::empty() + a =~= a);
    lemma_trim_pad(seq![' '], b);
    lemma_trim_pad(seq![' '], c);
    assert(pieces.drop_last().drop_last() =~= seq![a]);
    assert(pieces.drop_last() =~= seq![a, lb]);
    assert(seq![a].drop_last() =~= Seq::<Seq<char>>::empty());
    assert(kept_parts(Seq::<Seq<char>>::empty()) =~= Seq::<Seq<char>>::empty());
    assert(kept_parts(seq![a]) =~= seq![a]);
    assert(kept_parts(seq![a, lb]) =~= seq![a, b]);
    assert(kept_parts(pieces) =~= seq![a, b, c]);
}

/// Three fields without line breaks make a trimmed line without line breaks.
proof fn lemma_three_fields_line(a: Seq<char>, b: Seq<char>, c: Seq<char>)
    requires
        is_field(a),
        is_field(b),
        is_field(c),
        lacks(a, '\n'),
        lacks(b, '\n'),
        lacks(c, '\n'),
    ensures
        lacks(a + seq![',', ' '] + b + seq![',', ' '] + c, '\n'),
        trim(a + seq![',', ' '] + b + seq![',', ' '] + c) == a + seq![',', ' '] + b + seq![',', ' ']
            + c,
{
    let l = a + seq![',', ' '] + b + seq![',', ' '] + c;
    let x = a.len() as int;
    let y = x + 2 + b.len();
    assert forall|j: int| 0 <= j < l.len() implies #[trigger] l[j] != '\n' by {
        if j < x {
            assert(l[j] == a[j]);
        } else if j < x + 2 {
        } else if j < y {
            assert(l[j] == b[j - x - 2]);
        } else if j < y + 2 {
        } else {
            assert(l[j] == c[j - y - 2]);
        }
    }
    assert(l[0] == a[0]);
    assert(l.last() == c.last());
    lemma_trim_pad(Seq::<char>::empty(), l);
    assert(Seq::<char>::empty() + l =~= l);
}

/// A written line is one line, reads as a language line, and stores the
/// entry under its rank.
#[verifier::rlimit(30)]
proof fn lemma_line_reads_back(e: (usize, MasView), c: nat)
    requires
        writable(e),
    ensures
        written_line(e, c) == bare_line(e, c) + seq!['\n'],
        lacks(bare_line(e, c), '\n'),
        trim(bare_line(e, c)) == bare_line(e, c),
        bare_line(e, c).len() > 0,
        line_ok(bare_line(e, c)),
        stored(bare_line(e, c)) == (MasView { rank: e.0, ..e.1 }),
{
    let d = decimal(e.0 as nat);
    let w = e.1.word;
    let lab = label(w, c);
    let s = e.1.sentence;
    lemma_decimal_digits(e.0 as nat);
    law_decimal_parses_back(e.0);
    lemma_label_shape(w, c);
    lemma_word_shape(lab);
    lemma_sentence_shape(s);
    let l = bare_line(e, c);
    assert(l =~= d + seq![',', ' '] + lab + seq![',', ' '] + s);
    assert(written_line(e, c) =~= l + seq!['\n']);
    assert forall|j: int| 0 <= j < d.len() implies #[trigger] d[j] != ',' && d[j] != '\n' && !is_ws(d[j]) by {
        assert(crate::text::is_digit(d[j]));
    }
    assert(lacks(lab, '\n'));
    lemma_three_fields(d, lab, s);
    lemma_three_fields_line(d, lab, s);
    lemma_ws_split_word(lab);
    assert(first_word(lab) == lab);
}

proof fn lemma_kept_parts_append(a: Seq<Seq<char>>, b: Seq<Seq<char>>)
    ensures
        kept_parts(a + b) == kept_parts(a) + kept_parts(b),
    decreases b.len(),
{
    if b.len() == 0 {
        assert(a + b =~= a);
        assert(kept_parts(a) + kept_parts(b) =~= kept_parts(a));
    } else {
        assert((a + b).drop_last() =~= a + b.drop_last());
        assert((a + b).last() == b.last());
        lemma_kept_parts_append(a, b.drop_last());
        if trim(b.last()).len() > 0 {
            assert(kept_parts(a) + kept_parts(b.drop_last()).push(trim(b.last())) =~= (kept_parts(a)
                + kept_parts(b.drop_last())).push(trim(b.last())));
        }
    }
}

#[verifier::rlimit(40)]
proof fn lemma_written_lines(es: Seq<(usize, MasView)>)
    requires
        forall|i: int| 0 <= i < es.len() ==> writable(#[trigger] es[i]),
    ensures
        split_char(written(es), '\n').len() > 0,
        split_char(written(es), '\n').last() == Seq::<char>::empty(),
        written(es).len() == 0 || written(es).last() == '\n',
        lines_of(written(es)) == line_seq(es),
        forall|i: int| 0 <= i < line_seq(es).len() ==> line_ok(#[trigger] line_seq(es)[i]),
        file_map(line_seq(es)) == read_back(es),
    decreases es.len(),
{
    if es.len() == 0 {
        lemma_split_char_lacking(Seq::<char>::empty(), '\n');
        assert(kept_parts(seq![Seq::<char>::empty()]) =~= Seq::<Seq<char>>::empty()) by {
            assert(seq![Seq::<char>::empty()].drop_last() =~= Seq::<Seq<char>>::empty());
            assert(seq![Seq::<char>::empty()].last() == Seq::<char>::empty());
            assert(kept_parts(Seq::<Seq<char>>::empty()) =~= Seq::<Seq<char>>::empty());
            assert(trim(Seq::<char>::empty()) =~= Seq::<char>::empty());
        }
    } else {
        let p = es.drop_last();
        assert forall|i: int| 0 <= i < p.len() implies writable(#[trigger] p[i]) by {
            assert(p[i] == es[i]);
        }
        lemma_written_lines(p);
        let e = es.last();
        assert(writable(e)) by {
            assert(es[es.len() - 1] == e);
        }
        let c = count_word(p, e.1.word);
        lemma_line_reads_back(e, c);
        let l = bare_line(e, c);
        let wp = written(p);
        assert(written(es) == wp + (l + seq!['\n']));
        lemma_split_char_append(wp, l + seq!['\n'], '\n');
        lemma_split_char_lacking(l, '\n');
        let sp = split_char(wp, '\n');
        let pieces = sp.drop_last() + seq![l, Seq::<char>::empty()];
        assert(split_char(written(es), '\n') == pieces);
        lemma_kept_parts_append(sp.drop_last(), seq![l, Seq::<char>::empty()]);
        assert(seq![l, Seq::<char>::empty()].drop_last() =~= seq![l]);
        assert(seq![l].drop_last() =~= Seq::<Seq<char>>::empty());
        assert(trim(Seq::<char>::empty()) =~= Seq::<char>::empty());
        assert(seq![l].last() == l);
        assert(kept_parts(Seq::<Seq<char>>::empty()) =~= Seq::<Seq<char>>::empty());
        assert(kept_parts(seq![l]) =~= seq![l]);
        assert(seq![l, Seq::<char>::empty()].last() == Seq::<char>::empty());
        assert(kept_parts(seq![l, Seq::<char>::empty()]) =~= seq![l]);
        assert(kept_parts(sp) == kept_parts(sp.drop_last()));
        assert(lines_of(written(es)) =~= line_seq(p).push(l));
        assert(line_seq(es) == line_seq(p).push(l));
        assert forall|i: int| 0 <= i < line_seq(es).len() implies line_ok(#[trigger] line_seq(es)[i]) by {
            if i < line_seq(p).len() {
                assert(line_seq(es)[i] == line_seq(p)[i]);
            }
        }
        assert(line_seq(es).drop_last() =~= line_seq(p));
        assert(written(es).last() == '\n');
        assert(pieces.last() == Seq::<char>::empty());
    }
}

/// Reading back what is written: the text that the synchronisation writes
/// for entries that it can write holds only readable lines, and the lines
/// of that text, read by rank, are the entries, each under its rank.
pub proof fn law_written_reads_back(es: Seq<(usize, MasView)>)
    requires
        forall|i: int| 0 <= i < es.len() ==> writable(#[trigger] es[i]),
    ensures
        forall|i: int|
            0 <= i < lines_of(written(es)).len() ==> line_ok(#[trigger] lines_of(written(es))[i]),
        file_map(lines_of(written(es))) == read_back(es),
{
    lemma_written_lines(es);
}

proof fn lemma_piece_len_prefix(s: Seq<char>, sep: char, k: int)
    requires
        0 <= k < piece_len(s, sep),
    ensures
        s[k] != sep,
    decreases s.len(),
{
    crate::text::lemma_piece_len_bound(s, sep);
    if k > 0 {
        lemma_piece_len_prefix(s.drop_first(), sep, k - 1);
        assert(s.drop_first()[k - 1] == s[k]);
    }
}

proof fn lemma_subrange_lacks(s: Seq<char>, a: int, b: int, c: char)
    requires
        0 <= a <= b <= s.len(),
        lacks(s, c),
    ensures
        lacks(s.subrange(a, b), c),
{
    assert forall|j: int| 0 <= j < b - a implies #[trigger] s.subrange(a, b)[j] != c by {
        assert(s.subrange(a, b)[j] == s[a + j]);
    }
}

proof fn lemma_split_pieces_lack(s: Seq<char>, sep: char, c: char)
    requires
        c == sep || lacks(s, c),
    ensures
        forall|i: int| 0 <= i < split_char(s, sep).len() ==> lacks(#[trigger] split_char(s, sep)[i], c),
    decreases s.len(),
{
    crate::text::lemma_piece_len_bound(s, sep);
    let n = piece_len(s, sep) as int;
    let t = s.take(n);
    assert forall|j: int| 0 <= j < t.len() implies #[trigger] t[j] != c by {
        if c == sep {
            lemma_piece_len_prefix(s, sep, j);
        }
        assert(t[j] == s[j]);
    }
    if n < s.len() {
        let rest = s.skip(n + 1);
        if c != sep {
            assert(rest =~= s.subrange(n + 1, s.len() as int));
            lemma_subrange_lacks(s, n + 1, s.len() as int, c);
        }
        lemma_split_pieces_lack(rest, sep, c);
        assert forall|i: int| 0 <= i < split_char(s, sep).len() implies lacks(
            #[trigger] split_char(s, sep)[i],
            c,
        ) by {
            if i > 0 {
                assert(split_char(s, sep)[i] == split_char(rest, sep)[i - 1]);
            } else {
                assert(split_char(s, sep)[0] == t);
            }
        }
    } else {
        assert(t =~= s);
        assert(split_char(s, sep) == seq![s]);
    }
}

proof fn lemma_trim_lacks(s: Seq<char>, c: char)
    requires
        lacks(s, c),
    ensures
        lacks(trim(s), c),
{
    let a = lead_ws_len(s);
    if a < s.len() {
        crate::text::lemma_lead_ws_bound(s);
        lemma_trail_bound(s, a);
        lemma_subrange_lacks(s, a as int, s.len() - trail_ws_len(s), c);
    }
}

proof fn lemma_trail_bound(s: Seq<char>, a: nat)
    ensures
        a < s.len() && !is_ws(s[a as int]) ==> a + trail_ws_len(s) < s.len(),
        trail_ws_len(s) <= s.len(),
    decreases s.len(),
{
    if s.len() > 0 && is_ws(s.last()) {
        lemma_trail_bound(s.drop_last(), a);
        if a < s.len() && !is_ws(s[a as int]) && a < s.len() - 1 {
            assert(s.drop_last()[a as int] == s[a as int]);
        }
    }
}

proof fn lemma_kept_parts_lack(ps: Seq<Seq<char>>, c: char)
    requires
        forall|i: int| 0 <= i < ps.len() ==> lacks(#[trigger] ps[i], c),
    ensures
        forall|i: int| 0 <= i < kept_parts(ps).len() ==> lacks(#[trigger] kept_parts(ps)[i], c),
    decreases ps.len(),
{
    if ps.len() > 0 {
        let p = ps.drop_last();
        assert forall|i: int| 0 <= i < p.len() implies lacks(#[trigger] p[i], c) by {
            assert(p[i] == ps[i]);
        }
        lemma_kept_parts_lack(p, c);
        assert(lacks(ps[ps.len() - 1], c));
        lemma_trim_lacks(ps.last(), c);
        let prev = kept_parts(p);
        assert forall|i: int| 0 <= i < kept_parts(ps).len() implies lacks(#[trigger] kept_parts(ps)[i], c) by {
            if i < prev.len() {
                assert(kept_parts(ps)[i] == prev[i]);
            }
        }
    }
}

proof fn lemma_ws_split_lack(s: Seq<char>, c: char)
    requires
        lacks(s, c),
    ensures
        forall|i: int| 0 <= i < ws_split(s).len() ==> lacks(#[trigger] ws_split(s)[i], c),
    decreases s.len(),
{
    if s.len() > 0 {
        if is_ws(s[0]) {
            assert(s.drop_first() =~= s.subrange(1, s.len() as int));
            lemma_subrange_lacks(s, 1, s.len() as int, c);
            lemma_ws_split_lack(s.drop_first(), c);
            assert(ws_split(s) == ws_split(s.drop_first()));
        } else {
            crate::text::lemma_word_len_bound(s);
            let n = word_len(s) as int;
            assert(s.take(n) =~= s.subrange(0, n));
            assert(s.skip(n) =~= s.subrange(n, s.len() as int));
            lemma_subrange_lacks(s, 0, n, c);
            lemma_subrange_lacks(s, n, s.len() as int, c);
            lemma_ws_split_lack(s.skip(n), c);
            assert forall|i: int| 0 <= i < ws_split(s).len() implies lacks(#[trigger] ws_split(s)[i], c) by {
                if i > 0 {
                    assert(ws_split(s)[i] == ws_split(s.skip(n))[i - 1]);
                } else {
                    assert(ws_split(s)[0] == s.take(n));
                }
            }
        }
    }
}

proof fn lemma_join_lacks(ts: Seq<Seq<char>>, sep: Seq<char>, c: char)
    requires
        forall|i: int| 0 <= i < ts.len() ==> lacks(#[trigger] ts[i], c),
        lacks(sep, c),
    ensures
        lacks(join(ts, sep), c),
    decreases ts.len(),
{
    if ts.len() == 1 {
        assert(lacks(ts[0], c));
    } else if ts.len() > 1 {
        let p = ts.drop_last();
        assert forall|i: int| 0 <= i < p.len() implies lacks(#[trigger] p[i], c) by {
            assert(p[i] == ts[i]);
        }
        lemma_join_lacks(p, sep, c);
        let a = join(p, sep);
        let l = ts.last();
        assert(lacks(ts[ts.len() - 1], c));
        let j = a + sep + l;
        assert forall|k: int| 0 <= k < j.len() implies #[trigger] j[k] != c by {
            if k < a.len() {
                assert(j[k] == a[k]);
            } else if k < a.len() + sep.len() {
                assert(j[k] == sep[k - a.len()]);
            } else {
                assert(j[k] == l[k - a.len() - sep.len()]);
            }
        }
    }
}

/// The sentence of a line that a language file holds is stored as a
/// normalised sentence that fits.
proof fn lemma_stored_sentence(line: Seq<char>)
    requires
        line_ok(line),
    ensures
        sentence_fits(stored(line)),
{
    let ps = split_char(line, ',');
    let f = fields_of(line);
    lemma_split_pieces_lack(line, ',', ',');
    lemma_kept_parts_lack(ps, ',');
    crate::sync::lemma_kept_parts_nonempty_trimmed(ps, 2);
    let f2 = f[2];
    assert(lacks(f2, ','));
    let ts = ws_split(f2);
    lemma_ws_split_words(f2);
    lemma_ws_split_lack(f2, ',');
    crate::text::lemma_ws_split_join(ts);
    crate::text::law_sentence_idempotent(f2);
    lemma_join_lacks(ts, seq![' '], ',');
    assert(stored(line).sentence == sentence_of(f2));
}

/// A line that a language file holds is stored as a writable entry,
/// provided that its word does not start with a dash.
pub proof fn law_stored_is_writable(line: Seq<char>, k: usize)
    requires
        line_ok(line),
        cut_word(first_word(fields_of(line)[1])).len() > 0,
    ensures
        writable((k, stored(line))),
{
    let ps = split_char(line, ',');
    let f = fields_of(line);
    lemma_split_pieces_lack(line, ',', ',');
    lemma_kept_parts_lack(ps, ',');
    crate::sync::lemma_kept_parts_nonempty_trimmed(ps, 1);
    let f1 = f[1];
    assert(lacks(f1, ','));
    lemma_ws_split_words(f1);
    lemma_ws_split_lack(f1, ',');
    let fw = first_word(f1);
    assert(is_word(fw) && lacks(fw, ','));
    crate::text::lemma_piece_len_bound(fw, '-');
    let n = piece_len(fw, '-') as int;
    let w = cut_word(fw);
    assert(w =~= fw.subrange(0, n));
    assert forall|j: int| 0 <= j < w.len() implies !is_ws(#[trigger] w[j]) && w[j] != ',' && w[j] != '-' by {
        assert(w[j] == fw[j]);
        lemma_piece_len_prefix(fw, '-', j);
    }
    assert(stored(line).word == w);
    lemma_stored_sentence(line);
}

/// A language file whose entries are all writable stays so through the
/// synchronisation of its ranks.
pub proof fn law_synced_stays_writable(l: Map<usize, MasView>, cs: Seq<Change>, n: int)
    requires
        forall|k: usize| #[trigger] l.contains_key(k) ==> writable((k, l[k])),
        forall|i: int| 0 <= i < cs.len() ==> l.contains_key((#[trigger] cs[i]).old),
    ensures
        forall|r: usize| #[trigger] synced(l, cs, n).contains_key(r) ==> writable((r, synced(l, cs, n)[r])),
{
    assert forall|r: usize| #[trigger] synced(l, cs, n).contains_key(r) implies writable(
        (r, synced(l, cs, n)[r]),
    ) by {
        lemma_placeholder_writable(r);
        if is_new(cs, r) && agree(l, cs, r) {
            crate::sync::lemma_last_old_is_old(cs, r);
            let t = choose|t: int| 0 <= t < cs.len() && (#[trigger] cs[t]).new == r && cs[t].old == last_old(cs, r);
            assert(l.contains_key(cs[t].old));
            assert(writable((last_old(cs, r), l[last_old(cs, r)])));
        }
    }
}

/// The placeholder line is writable.
pub proof fn lemma_placeholder_writable(r: usize)
    ensures
        writable((r, placeholder(r))),
{
    let w = seq!['w'];
    let s = seq!['s'];
    lemma_ws_split_word(w);
    lemma_ws_split_word(s);
    assert(is_word(s));
    assert(join(seq![s], seq![' ']) == s);
    assert(utf8_len(s) == 1) by {
        assert(s.drop_last() =~= Seq::<char>::empty());
        assert(utf8_len(Seq::<char>::empty()) == 0);
        assert(s.last() == 's');
        assert(('s' as u32) < 0x80);
    }
}

/// The words of the lines of a file do not start with a dash.
pub open spec fn words_kept(lines: Seq<Seq<char>>) -> bool {
    forall|i: int| 0 <= i < lines.len() ==> cut_word(first_word(fields_of(#[trigger] lines[i])[1])).len() > 0
}

/// A language file read from lines that it can hold, whose words do not start
/// with a dash, holds only writable entries, placeholders included.
pub proof fn law_read_file_is_writable(lines: Seq<Seq<char>>, max: int)
    requires
        forall|i: int| 0 <= i < lines.len() ==> line_ok(#[trigger] lines[i]),
        words_kept(lines),
    ensures
        forall|k: usize| #[trigger] filled(file_map(lines), max).contains_key(k) ==> writable(
            (k, filled(file_map(lines), max)[k]),
        ),
    decreases lines.len(),
{
    lemma_file_map_writable(lines);
    assert forall|k: usize| #[trigger] filled(file_map(lines), max).contains_key(k) implies writable(
        (k, filled(file_map(lines), max)[k]),
    ) by {
        lemma_placeholder_writable(k);
    }
}

proof fn lemma_file_map_writable(lines: Seq<Seq<char>>)
    requires
        forall|i: int| 0 <= i < lines.len() ==> line_ok(#[trigger] lines[i]),
        words_kept(lines),
    ensures
        forall|k: usize| #[trigger] file_map(lines).contains_key(k) ==> writable((k, file_map(lines)[k])),
    decreases lines.len(),
{
    if lines.len() > 0 {
        let p = lines.drop_last();
        assert forall|i: int| 0 <= i < p.len() implies line_ok(#[trigger] p[i]) by {
            assert(p[i] == lines[i]);
        }
        assert forall|i: int| 0 <= i < p.len() implies cut_word(first_word(fields_of(#[trigger] p[i])[1])).len() > 0 by {
            assert(p[i] == lines[i]);
        }
        lemma_file_map_writable(p);
        let l = lines.last();
        assert(line_ok(lines[lines.len() - 1]));
        assert(cut_word(first_word(fields_of(lines[lines.len() - 1])[1])).len() > 0);
        assert(file_map(lines) == file_map(p).insert(stored(l).rank, stored(l)));
        assert forall|k: usize| #[trigger] file_map(lines).contains_key(k) implies writable((k, file_map(lines)[k])) by {
            law_stored_is_writable(l, k);
            if k != stored(l).rank {
                assert(file_map(p).contains_key(k));
            }
        }
    }
}

} // verus!

verus! {

/// The entries of `m` under the ranks 1 to `n`, in rank order.
pub open spec fn dense(m: Map<usize, MasView>, n: nat) -> Seq<(usize, MasView)> {
    Seq::new(n, |i: int| ((i + 1) as usize, m[(i + 1) as usize]))
}

/// `m` over the ranks 1 to `n`, each line renumbered to its rank.
pub open spec fn renumbered(m: Map<usize, MasView>, n: nat) -> Map<usize, MasView> {
    Map::new(|k: usize| 1 <= k <= n, |k: usize| MasView { rank: k, ..m[k] })
}

/// The text that the synchronisation writes for the table `d` when the
/// kept ranks are 1 to `n`.
pub open spec fn text_of(d: RankMap, n: nat) -> Seq<char> {
    written(with_keys(d.seq(), rank_range(n as int)))
}

/// Two entries that are written alike: same rank, word and sentence.
pub open spec fn written_alike(a: (usize, MasView), b: (usize, MasView)) -> bool {
    &&& a.0 == b.0
    &&& a.1.word == b.1.word
    &&& a.1.sentence == b.1.sentence
}

/// The words of `ls` are all different.
pub open spec fn distinct_words(ls: Seq<Seq<char>>) -> bool {
    forall|i: int, j: int| 0 <= i < j < ls.len() ==> ls[i] != ls[j]
}

proof fn lemma_written_alike(a: Seq<(usize, MasView)>, b: Seq<(usize, MasView)>)
    requires
        a.len() == b.len(),
        forall|i: int| 0 <= i < a.len() ==> written_alike(#[trigger] a[i], b[i]),
    ensures
        written(a) == written(b),
        forall|w: Seq<char>| #[trigger] count_word(a, w) == count_word(b, w),
    decreases a.len(),
{
    if a.len() > 0 {
        let pa = a.drop_last();
        let pb = b.drop_last();
        assert forall|i: int| 0 <= i < pa.len() implies written_alike(#[trigger] pa[i], pb[i]) by {
            assert(pa[i] == a[i] && pb[i] == b[i]);
        }
        lemma_written_alike(pa, pb);
        assert(written_alike(a[a.len() - 1], b[b.len() - 1]));
        assert forall|w: Seq<char>| #[trigger] count_word(a, w) == count_word(b, w) by {
            assert(count_word(pa, w) == count_word(pb, w));
        }
        assert(count_word(pa, a.last().1.word) == count_word(pb, b.last().1.word));
    }
}

proof fn lemma_read_back_dense(m: Map<usize, MasView>, n: nat)
    requires
        n <= usize::MAX,
    ensures
        read_back(dense(m, n)) == renumbered(m, n),
    decreases n,
{
    let d = dense(m, n);
    if n == 0 {
        assert(read_back(d) =~= renumbered(m, n));
    } else {
        assert(d.drop_last() =~= dense(m, (n - 1) as nat));
        lemma_read_back_dense(m, (n - 1) as nat);
        assert(d.last() == (n as usize, m[n as usize]));
        assert(read_back(d) =~= renumbered(m, n));
    }
}

proof fn lemma_dense_key_at(s: Seq<(usize, MasView)>, n: nat, i: int)
    requires
        forall|a: int, b: int| 0 <= a < b < s.len() ==> (#[trigger] s[a]).0 < (#[trigger] s[b]).0,
        forall|a: int| 0 <= a < s.len() ==> 1 <= (#[trigger] s[a]).0 <= n,
        forall|r: usize| 1 <= r <= n ==> #[trigger] has_rank(s, r),
        0 <= i < s.len(),
    ensures
        s[i].0 == i + 1,
    decreases i,
{
    if i > 0 {
        lemma_dense_key_at(s, n, i - 1);
        assert(s[i - 1].0 < s[i].0);
    }
    if s[i].0 > i + 1 {
        let r = (i + 1) as usize;
        assert(has_rank(s, r));
        let j = choose|j: int| 0 <= j < s.len() && (#[trigger] s[j]).0 == r;
        if j < i - 1 {
            assert(s[j].0 < s[i - 1].0);
        } else if j > i {
            assert(s[i].0 < s[j].0);
        }
    }
}

/// Entries in strictly ascending rank order, each ranked from 1 to `n`,
/// with every such rank present, are ranked 1, 2, ..., `n`.
proof fn lemma_dense_keys(s: Seq<(usize, MasView)>, n: nat)
    requires
        forall|a: int, b: int| 0 <= a < b < s.len() ==> (#[trigger] s[a]).0 < (#[trigger] s[b]).0,
        forall|a: int| 0 <= a < s.len() ==> 1 <= (#[trigger] s[a]).0 <= n,
        forall|r: usize| 1 <= r <= n ==> #[trigger] has_rank(s, r),
        n <= usize::MAX,
    ensures
        s.len() == n,
        forall|i: int| 0 <= i < s.len() ==> (#[trigger] s[i]).0 == i + 1,
{
    assert forall|i: int| 0 <= i < s.len() implies (#[trigger] s[i]).0 == i + 1 by {
        lemma_dense_key_at(s, n, i);
    }
    if s.len() > 0 {
        assert(s[s.len() - 1].0 == s.len());
    }
    if s.len() < n {
        let r = (s.len() + 1) as usize;
        assert(has_rank(s, r));
        let j = choose|j: int| 0 <= j < s.len() && (#[trigger] s[j]).0 == r;
        assert(s[j].0 == j + 1);
    }
}

proof fn lemma_with_keys_members(es: Seq<(usize, MasView)>, keys: Set<usize>)
    ensures
        forall|i: int|
            0 <= i < with_keys(es, keys).len() ==> keys.contains((#[trigger] with_keys(es, keys)[i]).0),
        forall|k: int|
            0 <= k < es.len() && keys.contains((#[trigger] es[k]).0) ==> exists|i: int|
                0 <= i < with_keys(es, keys).len() && with_keys(es, keys)[i] == es[k],
        (forall|k: int| 0 <= k < es.len() ==> keys.contains((#[trigger] es[k]).0)) ==> with_keys(es, keys)
            == es,
    decreases es.len(),
{
    if es.len() > 0 {
        let p = es.drop_last();
        lemma_with_keys_members(p, keys);
        let wp = with_keys(p, keys);
        let w = with_keys(es, keys);
        assert forall|i: int| 0 <= i < w.len() implies keys.contains((#[trigger] w[i]).0) by {
            if i < wp.len() {
                assert(w[i] == wp[i]);
            }
        }
        assert forall|k: int| 0 <= k < es.len() && keys.contains((#[trigger] es[k]).0) implies exists|i: int|
            0 <= i < w.len() && w[i] == es[k] by {
            if k < p.len() {
                assert(p[k] == es[k]);
                let i = choose|i: int| 0 <= i < wp.len() && wp[i] == p[k];
                assert(w[i] == wp[i]);
            } else {
                assert(w[w.len() - 1] == es[k]);
            }
        }
        if forall|k: int| 0 <= k < es.len() ==> keys.contains((#[trigger] es[k]).0) {
            assert forall|k: int| 0 <= k < p.len() implies keys.contains((#[trigger] p[k]).0) by {
                assert(p[k] == es[k]);
            }
            assert(keys.contains(es[es.len() - 1].0));
            assert(w =~= es);
        }
    }
}

/// A table that holds every rank from 1 to `n` is written with exactly those
/// ranks, in order; one that holds no other rank is stored that way too.
#[verifier::rlimit(40)]
pub proof fn lemma_rank_map_dense(d: RankMap, n: nat)
    requires
        d.wf(),
        n <= usize::MAX,
        forall|r: usize| 1 <= r <= n ==> #[trigger] d@.contains_key(r),
    ensures
        with_keys(d.seq(), rank_range(n as int)) == dense(d@, n),
        (forall|r: usize| #[trigger] d@.contains_key(r) ==> 1 <= r <= n) ==> d.seq() == dense(d@, n),
{
    let es = d.seq();
    let keys = rank_range(n as int);
    let w = with_keys(es, keys);
    assert forall|a: int, b: int| 0 <= a < b < w.len() implies (#[trigger] w[a]).0 < (#[trigger] w[b]).0 by {
        d.lemma_sorted();
        lemma_with_keys_sorted(es, keys);
    }
    assert forall|i: int| 0 <= i < w.len() implies 1 <= (#[trigger] w[i]).0 <= n by {
        lemma_with_keys_members(es, keys);
        assert(keys.contains(w[i].0));
    }
    assert forall|r: usize| 1 <= r <= n implies #[trigger] has_rank(w, r) by {
        lemma_with_keys_members(es, keys);
        assert(d@.contains_key(r));
        d.lemma_view_in_entries(r);
        let k = d.pos(r);
        assert(keys.contains(es[k].0));
        let i = choose|i: int| 0 <= i < w.len() && w[i] == es[k];
        assert(w[i].0 == r);
    }
    lemma_dense_keys(w, n);
    assert forall|i: int| 0 <= i < w.len() implies w[i] == dense(d@, n)[i] by {
        d.lemma_sorted();
        lemma_with_keys_sorted(es, keys);
        let k = choose|k: int| 0 <= k < es.len() && #[trigger] w[i] == es[k];
        d.lemma_entry_in_view(k);
    }
    assert(w =~= dense(d@, n));
    if forall|r: usize| #[trigger] d@.contains_key(r) ==> 1 <= r <= n {
        assert forall|k: int| 0 <= k < es.len() implies keys.contains((#[trigger] es[k]).0) by {
            d.lemma_entry_in_view(k);
        }
        lemma_with_keys_members(es, keys);
    }
}

proof fn lemma_moves_none(es: Seq<(usize, MasView)>, store: Map<Seq<char>, usize>)
    requires
        forall|i: int|
            0 <= i < es.len() && store.contains_key((#[trigger] es[i]).1.word) ==> store[es[i].1.word] == es[i].0,
    ensures
        moves(es, store) == Seq::<Change>::empty(),
    decreases es.len(),
{
    if es.len() > 0 {
        let p = es.drop_last();
        assert forall|i: int| 0 <= i < p.len() && store.contains_key((#[trigger] p[i]).1.word) implies store[p[i].1.word]
            == p[i].0 by {
            assert(p[i] == es[i]);
        }
        lemma_moves_none(p, store);
        assert(es[es.len() - 1] == es.last());
    }
}

proof fn lemma_last_ranked_at(es: Seq<(usize, MasView)>, store: Map<Seq<char>, usize>, r: usize, k: int)
    requires
        0 <= k < es.len(),
        ranked_at(store, es[k], r),
        forall|i: int| k < i < es.len() ==> !ranked_at(store, #[trigger] es[i], r),
    ensures
        last_ranked(es, store, r) == Some(es[k].1),
    decreases es.len(),
{
    if k < es.len() - 1 {
        assert(!ranked_at(store, es[es.len() - 1], r));
        let p = es.drop_last();
        assert forall|i: int| k < i < p.len() implies !ranked_at(store, #[trigger] p[i], r) by {
            assert(p[i] == es[i]);
        }
        assert(p[k] == es[k]);
        lemma_last_ranked_at(p, store, r, k);
    }
}

proof fn lemma_last_ranked_entry(es: Seq<(usize, MasView)>, store: Map<Seq<char>, usize>, r: usize)
    ensures
        last_ranked(es, store, r) matches Some(m) ==> exists|k: int| 0 <= k < es.len() && (#[trigger] es[k]).1 == m,
    decreases es.len(),
{
    if es.len() > 0 && !ranked_at(store, es.last(), r) {
        let p = es.drop_last();
        lemma_last_ranked_entry(p, store, r);
        if let Some(m) = last_ranked(p, store, r) {
            let k = choose|k: int| 0 <= k < p.len() && (#[trigger] p[k]).1 == m;
            assert(es[k] == p[k]);
        }
    } else if es.len() > 0 {
        assert(es[es.len() - 1] == es.last());
    }
}

/// A list of different words ranks each at its position, from 1.
pub proof fn lemma_distinct_ranks(ls: Seq<Seq<char>>)
    requires
        ls.len() <= usize::MAX,
        distinct_words(ls),
    ensures
        ranks_of(Map::empty(), ls).dom().finite(),
        ranks_of(Map::empty(), ls).len() == ls.len(),
        forall|i: int|
            0 <= i < ls.len() ==> ranks_of(Map::empty(), ls).contains_key(#[trigger] ls[i]) && ranks_of(
                Map::empty(),
                ls,
            )[ls[i]] == i + 1,
        forall|w: Seq<char>| #[trigger] ranks_of(Map::empty(), ls).contains_key(w) ==> ls.contains(w),
    decreases ls.len(),
{
    let m = ranks_of(Map::<Seq<char>, usize>::empty(), ls);
    law_ranks_are_last_positions(ls);
    assert forall|i: int| 0 <= i < ls.len() implies m.contains_key(#[trigger] ls[i]) && m[ls[i]] == i + 1 by {
        assert(ls.contains(ls[i]));
        let r = m[ls[i]] as int;
        if r - 1 != i {
            assert(ls[i] != ls[r - 1]);
        }
    }
    if ls.len() > 0 {
        let p = ls.drop_last();
        assert forall|i: int, j: int| 0 <= i < j < p.len() implies p[i] != p[j] by {
            assert(p[i] == ls[i] && p[j] == ls[j]);
        }
        lemma_distinct_ranks(p);
        let mp = ranks_of(Map::<Seq<char>, usize>::empty(), p);
        if mp.contains_key(ls.last()) {
            assert(p.contains(ls.last()));
            let k = choose|k: int| 0 <= k < p.len() && p[k] == ls.last();
            assert(ls[k] == ls[ls.len() - 1]);
        }
        assert(m.dom() =~= mp.dom().insert(ls.last()));
    } else {
        assert(m.dom() =~= Set::<Seq<char>>::empty());
    }
}

proof fn lemma_file_map_sentences(lines: Seq<Seq<char>>)
    requires
        forall|i: int| 0 <= i < lines.len() ==> line_ok(#[trigger] lines[i]),
    ensures
        forall|k: usize| #[trigger] file_map(lines).contains_key(k) ==> sentence_fits(file_map(lines)[k]),
    decreases lines.len(),
{
    if lines.len() > 0 {
        let p = lines.drop_last();
        assert forall|i: int| 0 <= i < p.len() implies line_ok(#[trigger] p[i]) by {
            assert(p[i] == lines[i]);
        }
        lemma_file_map_sentences(p);
        let l = lines.last();
        assert(line_ok(lines[lines.len() - 1]));
        lemma_stored_sentence(l);
        assert(file_map(lines) == file_map(p).insert(stored(l).rank, stored(l)));
        assert forall|k: usize| #[trigger] file_map(lines).contains_key(k) implies sentence_fits(file_map(lines)[k]) by {
            if k != stored(l).rank {
                assert(file_map(p).contains_key(k));
            }
        }
    }
}

/// Synchronising a language file other than English a second time, when
/// the English file makes no moves any more, rewrites the text that the
/// first synchronisation wrote: the file as written reads back without
/// fault, and synchronising what is read gives the same text. (The first
/// synchronisation reads the file from `lines` and applies the moves `cs`,
/// over the ranks 1 to `n`.)
pub proof fn law_other_resync_stable(
    n: nat,
    lines: Seq<Seq<char>>,
    cs: Seq<Change>,
    first_synced: RankMap,
    second_read: RankMap,
    second_synced: RankMap,
)
    requires
        n <= usize::MAX,
        forall|i: int| 0 <= i < lines.len() ==> line_ok(#[trigger] lines[i]),
        words_kept(lines),
        forall|i: int| 0 <= i < cs.len() ==> filled(file_map(lines), n as int).contains_key((#[trigger] cs[i]).old),
        first_synced.wf(),
        first_synced@ == synced(filled(file_map(lines), n as int), cs, n as int),
        second_read.wf(),
        second_read@ == filled(file_map(lines_of(text_of(first_synced, n))), n as int),
        second_synced.wf(),
        second_synced@ == synced(second_read@, Seq::<Change>::empty(), n as int),
    ensures
        forall|i: int|
            0 <= i < lines_of(text_of(first_synced, n)).len() ==> line_ok(
                #[trigger] lines_of(text_of(first_synced, n))[i],
            ),
        text_of(second_synced, n) == text_of(first_synced, n),
{
    let l1 = filled(file_map(lines), n as int);
    let s1 = first_synced@;
    law_read_file_is_writable(lines, n as int);
    law_synced_stays_writable(l1, cs, n as int);
    lemma_rank_map_dense(first_synced, n);
    let es = dense(s1, n);
    assert forall|i: int| 0 <= i < es.len() implies writable(#[trigger] es[i]) by {
        assert(s1.contains_key((i + 1) as usize));
    }
    law_written_reads_back(es);
    lemma_read_back_dense(s1, n);
    let l2 = renumbered(s1, n);
    assert(second_read@ =~= l2);
    assert(second_synced@ =~= l2);
    lemma_rank_map_dense(second_synced, n);
    assert forall|i: int| 0 <= i < es.len() implies written_alike(#[trigger] dense(l2, n)[i], es[i]) by {}
    lemma_written_alike(dense(l2, n), es);
}

/// Synchronising the English file a second time, with the same list of
/// different vocabulary words, rewrites the text that the first
/// synchronisation wrote: the file as written reads back without fault,
/// the store ranks each of its words within the file, no English line
/// moves (so the other files are synchronised with no moves; see
/// [`law_other_resync_stable`]), and synchronising what is read gives the
/// same text. (The first synchronisation reads the file from `lines`.)
pub proof fn law_english_resync_stable(
    list: Seq<Seq<char>>,
    lines: Seq<Seq<char>>,
    first_read: RankMap,
    first_synced: RankMap,
    second_read: RankMap,
    second_synced: RankMap,
)
    requires
        list.len() <= usize::MAX,
        distinct_words(list),
        forall|i: int| 0 <= i < list.len() ==> writable_word(#[trigger] list[i]),
        forall|i: int| 0 <= i < lines.len() ==> line_ok(#[trigger] lines[i]),
        first_read.wf(),
        first_read@ == filled(file_map(lines), list.len() as int),
        first_synced.wf(),
        first_synced@ == english_synced(
            first_read.seq(),
            ranks_of(Map::empty(), list),
            list,
            list.len() as int,
        ),
        second_read.wf(),
        second_read@ == filled(file_map(lines_of(text_of(first_synced, list.len()))), list.len() as int),
        second_synced.wf(),
        second_synced@ == english_synced(
            second_read.seq(),
            ranks_of(Map::empty(), list),
            list,
            list.len() as int,
        ),
    ensures
        ranks_of(Map::empty(), list).len() == list.len(),
        forall|i: int|
            0 <= i < lines_of(text_of(first_synced, list.len())).len() ==> line_ok(
                #[trigger] lines_of(text_of(first_synced, list.len()))[i],
            ),
        ranks_within(second_read.seq(), ranks_of(Map::empty(), list), list.len() as int),
        moves(second_read.seq(), ranks_of(Map::empty(), list)) == Seq::<Change>::empty(),
        text_of(second_synced, list.len()) == text_of(first_synced, list.len()),
{
    let n = list.len();
    let store = ranks_of(Map::<Seq<char>, usize>::empty(), list);
    lemma_distinct_ranks(list);
    let e1 = first_read@;
    let ne = first_synced@;
    // What the first synchronisation writes.
    lemma_file_map_sentences(lines);
    assert forall|r: usize| 1 <= r <= n implies #[trigger] ne.contains_key(r) && writable((r, ne[r]))
        && ne[r].word == list[r - 1] by {
        assert(store[list[r - 1]] == r);
        assert(owner(list, store, r) == Some(list[r - 1]));
        let m = moved_english(first_read.seq(), store, r);
        lemma_last_ranked_entry(first_read.seq(), store, r);
        if let Some(x) = last_ranked(first_read.seq(), store, r) {
            let k = choose|k: int| 0 <= k < first_read.seq().len() && (#[trigger] first_read.seq()[k]).1 == x;
            first_read.lemma_entry_in_view(k);
            let q = first_read.seq()[k].0;
            if !file_map(lines).contains_key(q) {
                lemma_placeholder_writable(q);
            }
            assert(sentence_fits(e1[q]));
        } else {
            lemma_placeholder_writable(r);
        }
        assert(sentence_fits(m));
        assert(writable_word(list[r - 1]));
    }
    lemma_rank_map_dense(first_synced, n);
    let es = dense(ne, n);
    assert forall|i: int| 0 <= i < es.len() implies writable(#[trigger] es[i]) by {
        assert(ne.contains_key((i + 1) as usize));
    }
    law_written_reads_back(es);
    lemma_read_back_dense(ne, n);
    // What the second synchronisation reads: each word under its own rank.
    let e2 = renumbered(ne, n);
    assert(second_read@ =~= e2);
    lemma_rank_map_dense(second_read, n);
    let es2 = second_read.seq();
    assert(es2 == dense(e2, n));
    assert forall|i: int| 0 <= i < es2.len() implies (#[trigger] es2[i]).1.word == list[i] && store.contains_key(
        es2[i].1.word,
    ) && store[es2[i].1.word] == es2[i].0 by {
        assert(ne.contains_key((i + 1) as usize));
        assert(list[i] == list[(i + 1) - 1]);
    }
    lemma_moves_none(es2, store);
    // The second synchronisation keeps every line where it is.
    let ne2 = second_synced@;
    assert forall|r: usize| 1 <= r <= n implies #[trigger] ne2.contains_key(r) && ne2[r].word == ne[r].word
        && ne2[r].sentence == ne[r].sentence by {
        let k = r - 1;
        assert(es2[k].0 == r);
        assert forall|i: int| k < i < es2.len() implies !ranked_at(store, #[trigger] es2[i], r) by {
            assert(es2[i].0 == i + 1);
        }
        lemma_last_ranked_at(es2, store, r, k);
        assert(store[list[r - 1]] == r);
        assert(owner(list, store, r) == Some(list[r - 1]));
    }
    lemma_rank_map_dense(second_synced, n);
    assert forall|i: int| 0 <= i < es.len() implies written_alike(#[trigger] dense(ne2, n)[i], es[i]) by {
        assert(ne2.contains_key((i + 1) as usize));
    }
    lemma_written_alike(dense(ne2, n), es);
}

} // verus!
