//! Language files of each word type, and their synchronisation with the
//! vocabulary.

use vstd::prelude::*;
use vstd::hash_map::StringHashMap;
use std::collections::HashSet;
use crate::ranks::RankMap;
use crate::sphere::{dotted, gfind, join_path, joined, distinct_keys, mas_views, Sphere, ReadParseFile};
use crate::sphere;
use crate::text::{
    chars_of, decimal, decimal_string, is_ws, join, join_strings, kept_parts, kept_ranges,
    law_trim_idempotent, lemma_join_spaced, lemma_piece_len_is, lemma_sentence_len,
    lemma_trim_starts_with_word, lemma_ws_split_words, parse_usize, parse_usize_range, piece_len,
    ranges_match, split_char, split_ranges, string_of, strings_of_ranges, trim, utf8_len,
    utf8_len_exceeds, views, ws_ranges, ws_split,
};

verus! {

/// One line of a language file: its rank, the word and its sentence.
#[derive(Debug)]
pub struct Mas {
    pub rank: usize,
    pub word: String,
    pub sentence: String,
}

/// The value of a [`Mas`].
pub struct MasView {
    pub rank: usize,
    pub word: Seq<char>,
    pub sentence: Seq<char>,
}

impl View for Mas {
    type V = MasView;

    open spec fn view(&self) -> MasView {
        MasView { rank: self.rank, word: self.word@, sentence: self.sentence@ }
    }
}

impl Clone for Mas {
    fn clone(&self) -> (res: Self)
        ensures
            res@ == self@,
    {
        Mas { rank: self.rank, word: self.word.clone(), sentence: self.sentence.clone() }
    }
}

/// Longest sentence, in UTF-8 bytes, that a language line may hold.
pub const MAX_SENTENCE: usize = 300;

/// The line that stands for a rank with no entry yet: word `w`,
/// sentence `s`.
pub open spec fn placeholder(r: usize) -> MasView {
    MasView { rank: r, word: seq!['w'], sentence: seq!['s'] }
}

/// The lines of a file: split at `\n`, trimmed, empty ones left out.
pub open spec fn lines_of(content: Seq<char>) -> Seq<Seq<char>> {
    kept_parts(split_char(content, '\n'))
}

/// The fields of a line: split at `,`, trimmed, empty ones left out.
pub open spec fn fields_of(line: Seq<char>) -> Seq<Seq<char>> {
    kept_parts(split_char(line, ','))
}

/// The first whitespace-separated word of `t`.
pub open spec fn first_word(t: Seq<char>) -> Seq<char> {
    ws_split(t)[0]
}

/// The words of `t`, each separated from the next by one space.
pub open spec fn sentence_of(t: Seq<char>) -> Seq<char> {
    join(ws_split(t), seq![' '])
}

/// A line that a release can read: three fields, the first a rank.
pub open spec fn release_line_ok(line: Seq<char>) -> bool {
    &&& fields_of(line).len() == 3
    &&& parse_usize(fields_of(line)[0]) is Some
}

/// A line that a language file can hold: a release line whose sentence
/// takes at most `MAX_SENTENCE` bytes.
pub open spec fn line_ok(line: Seq<char>) -> bool {
    &&& release_line_ok(line)
    &&& utf8_len(sentence_of(fields_of(line)[2])) <= MAX_SENTENCE
}

/// The language line that `line` holds: rank, first word, sentence.
pub open spec fn parsed(line: Seq<char>) -> MasView {
    let f = fields_of(line);
    MasView {
        rank: parse_usize(f[0]).unwrap(),
        word: first_word(f[1]),
        sentence: sentence_of(f[2]),
    }
}

/// Why a line cannot be read.
#[derive(Debug, Clone, Copy, PartialEq, Eq, Structural)]
pub enum LineFault {
    /// The line has this many non-empty fields, not three.
    FieldCount(usize),
    /// The first field is not a rank.
    BadRank,
    /// The sentence takes more than `MAX_SENTENCE` bytes.
    LongSentence,
}

/// The fault of a line that a language file cannot hold, if any.
pub open spec fn fault_of(line: Seq<char>, release: bool) -> Option<LineFault> {
    let f = fields_of(line);
    if f.len() != 3 {
        Some(LineFault::FieldCount(f.len() as usize))
    } else if parse_usize(f[0]) is None {
        Some(LineFault::BadRank)
    } else if !release && utf8_len(sentence_of(f[2])) > MAX_SENTENCE {
        Some(LineFault::LongSentence)
    } else {
        None
    }
}

pub proof fn lemma_fault_of(line: Seq<char>)
    ensures
        fault_of(line, false) is None <==> line_ok(line),
        fault_of(line, true) is None <==> release_line_ok(line),
{
}

impl Mas {
    pub fn new(rank: usize, word: &str, sentence: &str) -> (m: Mas)
        ensures
            m@ == (MasView { rank, word: word@, sentence: sentence@ }),
    {
        Mas { rank, word: word.to_owned(), sentence: sentence.to_owned() }
    }
}

/// The placeholder line for rank `r`.
fn placeholder_mas(r: usize) -> (m: Mas)
    ensures
        m@ == placeholder(r),
{
    let m = Mas::new(r, "w", "s");
    proof {
        reveal_strlit("w");
        reveal_strlit("s");
    }
    assert(m@.word =~= seq!['w']);
    assert(m@.sentence =~= seq!['s']);
    m
}

/// Helpers on one line of text.
pub struct Line {}

impl Line {
    /// The words of `s`, each separated from the next by one space.
    pub fn sentence(s: &str) -> (res: String)
        ensures
            res@ == sentence_of(s@),
    {
        let v = chars_of(s);
        let rs = ws_ranges(&v, 0, v.len());
        let toks = strings_of_ranges(&v, &rs);
        proof {
            assert(v@.subrange(0, v@.len() as int) =~= s@);
            assert(views(toks@) =~= ws_split(s@));
        }
        let res = join_strings(&toks, " ");
        proof {
            reveal_strlit(" ");
            assert(" "@ =~= seq![' ']);
        }
        res
    }

    /// The first whitespace-separated word of `w`.
    pub fn word(w: &str) -> (res: &str)
        requires
            ws_split(w@).len() > 0,
        ensures
            res@ == first_word(w@),
    {
        let v = chars_of(w);
        let rs = ws_ranges(&v, 0, v.len());
        assert(v@.subrange(0, v@.len() as int) =~= w@);
        let r = rs[0];
        w.substring_char(r.0, r.1)
    }
}

/// What `Line::sentence` gives back is tidy: it neither starts nor ends
/// with whitespace, its only whitespace is single spaces, no two whitespace
/// characters stand side by side, and it is no longer than its input, in
/// characters and in UTF-8 bytes.
pub proof fn law_sentence_tidy(s: Seq<char>)
    ensures
        sentence_of(s).len() > 0 ==> !is_ws(sentence_of(s)[0]) && !is_ws(sentence_of(s).last()),
        forall|j: int| 0 <= j < sentence_of(s).len() && is_ws(#[trigger] sentence_of(s)[j]) ==> sentence_of(s)[j] == ' ',
        forall|j: int, k: int|
            0 <= j && k == j + 1 && k < sentence_of(s).len() ==> !(is_ws(#[trigger] sentence_of(s)[j]) && is_ws(
                #[trigger] sentence_of(s)[k],
            )),
        sentence_of(s).len() <= s.len(),
        utf8_len(sentence_of(s)) <= utf8_len(s),
{
    lemma_ws_split_words(s);
    lemma_join_spaced(ws_split(s));
    lemma_sentence_len(s);
    let r = sentence_of(s);
    assert forall|j: int, k: int| 0 <= j && k == j + 1 && k < r.len() implies !(is_ws(#[trigger] r[j]) && is_ws(
        #[trigger] r[k],
    )) by {
        if is_ws(r[j]) {
            assert(!is_ws(r[j + 1]));
        }
    }
}

/// Reading and checking the lines of language files.
pub struct File {
    pub folder_name: String,
    pub files_names: Vec<String>,
    pub file_path: String,
}

/// The fields of `line`, as characters and their ranges.
fn fields(line: &str) -> (res: (Vec<char>, Vec<(usize, usize)>))
    ensures
        res.0@ == line@,
        ranges_match(line@, res.1@, fields_of(line@), 0, line@.len() as int),
{
    let v = chars_of(line);
    let rs = split_ranges(&v, 0, v.len(), ',');
    assert(v@.subrange(0, v@.len() as int) =~= line@);
    let ks = kept_ranges(&v, &rs, Ghost(split_char(line@, ',')), Ghost(0), Ghost(v@.len() as int));
    (v, ks)
}

pub proof fn lemma_kept_parts_nonempty_trimmed(ps: Seq<Seq<char>>, i: int)
    requires
        0 <= i < kept_parts(ps).len(),
    ensures
        kept_parts(ps)[i].len() > 0,
        ws_split(kept_parts(ps)[i]).len() > 0,
    decreases ps.len(),
{
    let prev = kept_parts(ps.drop_last());
    let t = trim(ps.last());
    if i < prev.len() {
        lemma_kept_parts_nonempty_trimmed(ps.drop_last(), i);
        if t.len() > 0 {
            assert(kept_parts(ps)[i] == prev[i]);
        }
    } else {
        lemma_trim_starts_with_word(ps.last());
    }
}

/// The lines of a file are not empty and have no whitespace at either end.
pub proof fn law_lines_are_trimmed(content: Seq<char>)
    ensures
        forall|i: int|
            0 <= i < lines_of(content).len() ==> (#[trigger] lines_of(content)[i]).len() > 0 && trim(
                lines_of(content)[i],
            ) == lines_of(content)[i],
{
    lemma_kept_parts_trimmed(split_char(content, '\n'));
}

proof fn lemma_kept_parts_trimmed(ps: Seq<Seq<char>>)
    ensures
        forall|i: int|
            0 <= i < kept_parts(ps).len() ==> (#[trigger] kept_parts(ps)[i]).len() > 0 && trim(
                kept_parts(ps)[i],
            ) == kept_parts(ps)[i],
    decreases ps.len(),
{
    if ps.len() > 0 {
        lemma_kept_parts_trimmed(ps.drop_last());
        law_trim_idempotent(ps.last());
        let prev = kept_parts(ps.drop_last());
        assert forall|i: int| 0 <= i < kept_parts(ps).len() implies (#[trigger] kept_parts(ps)[i]).len()
            > 0 && trim(kept_parts(ps)[i]) == kept_parts(ps)[i] by {
            if i < prev.len() {
                assert(kept_parts(ps)[i] == prev[i]);
            }
        }
    }
}

impl File {
    /// The lines of `content`: split at `\n`, trimmed, empty ones left out.
    pub fn parse_into_lines(content: String) -> (lines: Vec<String>)
        ensures
            views(lines@) == lines_of(content@),
    {
        let v = chars_of(content.as_str());
        let rs = split_ranges(&v, 0, v.len(), '\n');
        assert(v@.subrange(0, v@.len() as int) =~= content@);
        let ks = kept_ranges(&v, &rs, Ghost(split_char(content@, '\n')), Ghost(0), Ghost(v@.len() as int));
        let lines = strings_of_ranges(&v, &ks);
        assert(views(lines@) =~= lines_of(content@));
        lines
    }

    /// Whether `line` can be read into a language file (`release` false) or
    /// into a release (`release` true), and if not, why.
    pub fn check_line(line: &str, release: bool) -> (res: Result<(), LineFault>)
        ensures
            match res {
                Ok(()) => fault_of(line@, release) is None,
                Err(f) => fault_of(line@, release) == Some(f),
            },
    {
        let (v, rs) = fields(line);
        if rs.len() != 3 {
            return Err(LineFault::FieldCount(rs.len()));
        }
        let r0 = rs[0];
        if parse_usize_range(&v, r0.0, r0.1).is_none() {
            return Err(LineFault::BadRank);
        }
        if !release {
            let r2 = rs[2];
            let third = string_of(&v, r2.0, r2.1);
            let sentence = Line::sentence(third.as_str());
            if utf8_len_exceeds(sentence.as_str(), MAX_SENTENCE) {
                return Err(LineFault::LongSentence);
            }
        }
        Ok(())
    }

    /// The language line that `line` holds, with its sentence normalised.
    fn read_line(line: &str) -> (m: Mas)
        requires
            release_line_ok(line@),
        ensures
            m@ == parsed(line@),
    {
        let (v, rs) = fields(line);
        let r0 = rs[0];
        let r1 = rs[1];
        let r2 = rs[2];
        let num = parse_usize_range(&v, r0.0, r0.1).unwrap();
        let second = string_of(&v, r1.0, r1.1);
        let third = string_of(&v, r2.0, r2.1);
        proof {
            lemma_kept_parts_nonempty_trimmed(split_char(line@, ','), 1);
        }
        let word = Line::word(second.as_str());
        let sentence = Line::sentence(third.as_str());
        Mas::new(num, word, sentence.as_str())
    }

    /// The line of a language file.
    pub fn parse_line(line: &str) -> (m: Mas)
        requires
            line_ok(line@),
        ensures
            m@ == parsed(line@),
    {
        File::read_line(line)
    }

    /// The line of a file read for a release.
    pub fn parse_line_release(line: &str) -> (m: Mas)
        requires
            release_line_ok(line@),
        ensures
            m@ == parsed(line@),
    {
        File::read_line(line)
    }
}

/// `w` up to its first `-`: what the part before the first `-` of
/// `w.split("-")` is (all of `w` when it has no `-`).
pub open spec fn cut_word(w: Seq<char>) -> Seq<char> {
    w.take(piece_len(w, '-') as int)
}

/// The line that a language file keeps for `line`: its word is cut at the
/// first `-`.
pub open spec fn stored(line: Seq<char>) -> MasView {
    let m = parsed(line);
    MasView { word: cut_word(m.word), ..m }
}

/// The lines of a file by rank; a later line replaces an earlier one with
/// the same rank.
pub open spec fn file_map(lines: Seq<Seq<char>>) -> Map<usize, MasView>
    decreases lines.len(),
{
    if lines.len() == 0 {
        Map::empty()
    } else {
        file_map(lines.drop_last()).insert(stored(lines.last()).rank, stored(lines.last()))
    }
}

/// `m` with a placeholder under every rank from 1 to `max` that it lacks.
pub open spec fn filled(m: Map<usize, MasView>, max: int) -> Map<usize, MasView> {
    Map::new(
        |k: usize| m.contains_key(k) || 1 <= k <= max,
        |k: usize|
            if m.contains_key(k) {
                m[k]
            } else {
                placeholder(k)
            },
    )
}

/// `w` up to its first `-`.
fn cut_at_dash(w: &String) -> (res: String)
    ensures
        res@ == cut_word(w@),
{
    let v = chars_of(w.as_str());
    let mut j: usize = 0;
    while j < v.len() && v[j] != '-'
        invariant
            v@ == w@,
            j <= v@.len(),
            forall|k: int| 0 <= k < j ==> #[trigger] v@[k] != '-',
        decreases v@.len() - j,
    {
        j = j + 1;
    }
    proof {
        lemma_piece_len_is(w@, '-', j as int);
    }
    string_of(&v, 0, j)
}

/// The lines of one language file, keyed by rank.
#[derive(Debug)]
pub struct Lang {
    pub file_name: String,
    pub data: RankMap,
}

impl Lang {
    /// The language file `file_name` with content `content`, completed with
    /// a placeholder under each rank from 1 to `max` that it lacks.
    pub fn new(max: usize, file_name: &str, content: String) -> (lang: Lang)
        requires
            forall|i: int| 0 <= i < lines_of(content@).len() ==> line_ok(#[trigger] lines_of(content@)[i]),
        ensures
            lang.data.wf(),
            lang.file_name@ == file_name@,
            lang.data@ == filled(file_map(lines_of(content@)), max as int),
    {
        let ghost ls = lines_of(content@);
        let lines = File::parse_into_lines(content);
        let mut data = RankMap::new();
        for i in 0..lines.len()
            invariant
                views(lines@) == ls,
                forall|i: int| 0 <= i < ls.len() ==> line_ok(#[trigger] ls[i]),
                data.wf(),
                data@ == file_map(ls.take(i as int)),
        {
            proof {
                assert(lines@[i as int]@ == ls[i as int]);
                assert(ls.take(i + 1).drop_last() =~= ls.take(i as int));
            }
            let mut mas = File::parse_line(lines[i].as_str());
            mas.word = cut_at_dash(&mas.word);
            data.insert(mas.rank, mas);
        }
        assert(ls.take(lines@.len() as int) =~= ls);
        let ghost m = file_map(ls);
        let mut r: usize = 0;
        assert(data@ =~= filled(m, 0));
        while r < max
            invariant
                r <= max,
                data.wf(),
                data@ == filled(m, r as int),
            decreases max - r,
        {
            r = r + 1;
            if !data.contains(r) {
                data.insert(r, placeholder_mas(r));
            }
            assert(data@ =~= filled(m, r as int));
        }
        Lang { file_name: file_name.to_owned(), data }
    }

    /// A language file with only placeholders, under the ranks 1 to `max`.
    pub fn new_clean(max: usize, file_name: &str) -> (lang: Lang)
        ensures
            lang.data.wf(),
            lang.file_name@ == file_name@,
            lang.data@ == filled(Map::empty(), max as int),
    {
        let mut data = RankMap::new();
        let mut r: usize = 0;
        assert(data@ =~= filled(Map::empty(), 0));
        while r < max
            invariant
                r <= max,
                data.wf(),
                data@ == filled(Map::empty(), r as int),
            decreases max - r,
        {
            r = r + 1;
            data.insert(r, placeholder_mas(r));
            assert(data@ =~= filled(Map::empty(), r as int));
        }
        Lang { file_name: file_name.to_owned(), data }
    }

    /// Whether every line of `content` can be held in a language file; if
    /// not, the position (from 1) among the lines of the first that cannot,
    /// and why.
    pub fn check_content(content: String) -> (res: Result<(), (usize, LineFault)>)
        ensures
            res is Ok <==> forall|i: int|
                0 <= i < lines_of(content@).len() ==> line_ok(#[trigger] lines_of(content@)[i]),
            res matches Err((n, f)) ==> {
                &&& 1 <= n <= lines_of(content@).len()
                &&& fault_of(lines_of(content@)[n - 1], false) == Some(f)
                &&& forall|i: int| 0 <= i < n - 1 ==> line_ok(#[trigger] lines_of(content@)[i])
            },
    {
        let ghost ls = lines_of(content@);
        let lines = File::parse_into_lines(content);
        for i in 0..lines.len()
            invariant
                views(lines@) == ls,
                ls == lines_of(content@),
                forall|j: int| 0 <= j < i ==> line_ok(#[trigger] ls[j]),
        {
            proof {
                assert(lines@[i as int]@ == ls[i as int]);
            }
            match File::check_line(lines[i].as_str(), false) {
                Ok(()) => {},
                Err(f) => {
                    proof {
                        lemma_fault_of(ls[i as int]);
                    }
                    return Err((i + 1, f));
                },
            }
        }
        Ok(())
    }
}

/// A line that moves from rank `old` to rank `new`.
#[derive(Debug, Clone, Copy, PartialEq, Eq, Structural)]
pub struct Change {
    pub new: usize,
    pub old: usize,
}

impl Change {
    pub fn new(new: usize, old: usize) -> (c: Change)
        ensures
            c == (Change { new, old }),
    {
        Change { new, old }
    }
}

/// The ranks that `start` gives the words of `list` on top of `m`: each
/// word gets the position (from 1) of its last occurrence.
pub open spec fn ranks_of(m: Map<Seq<char>, usize>, list: Seq<Seq<char>>) -> Map<Seq<char>, usize>
    decreases list.len(),
{
    if list.len() == 0 {
        m
    } else {
        ranks_of(m, list.drop_last()).insert(list.last(), list.len() as usize)
    }
}

/// The ranks from 1 to `n`.
pub open spec fn rank_range(n: int) -> Set<usize> {
    Set::new(|r: usize| 1 <= r <= n)
}

/// Whether the store ranks the word of `e` at `r`.
pub open spec fn ranked_at(store: Map<Seq<char>, usize>, e: (usize, MasView), r: usize) -> bool {
    store.contains_key(e.1.word) && store[e.1.word] == r
}

/// The last of the entries `es` whose word the store ranks at `r`.
pub open spec fn last_ranked(es: Seq<(usize, MasView)>, store: Map<Seq<char>, usize>, r: usize) -> Option<
    MasView,
>
    decreases es.len(),
{
    if es.len() == 0 {
        None
    } else if ranked_at(store, es.last(), r) {
        Some(es.last().1)
    } else {
        last_ranked(es.drop_last(), store, r)
    }
}

/// The word of the list that owns rank `r`: the one at position `r` (from
/// 1) if the store ranks it there.
pub open spec fn owner(list: Seq<Seq<char>>, store: Map<Seq<char>, usize>, r: usize) -> Option<Seq<char>> {
    if 1 <= r <= list.len() && store.contains_key(list[r - 1]) && store[list[r - 1]] == r {
        Some(list[r - 1])
    } else {
        None
    }
}

/// The line under rank `r` in the English file moved to the store's ranks,
/// before the words are renamed: the last English line whose word the store
/// ranks at `r`, or a placeholder.
pub open spec fn moved_english(es: Seq<(usize, MasView)>, store: Map<Seq<char>, usize>, r: usize) -> MasView {
    match last_ranked(es, store, r) {
        Some(m) => m,
        None => placeholder(r),
    }
}

/// The English file after synchronisation: ranks 1 to `n`, each holding the
/// moved English line, renamed to the word that owns the rank.
pub open spec fn english_synced(
    es: Seq<(usize, MasView)>,
    store: Map<Seq<char>, usize>,
    list: Seq<Seq<char>>,
    n: int,
) -> Map<usize, MasView> {
    Map::new(
        |r: usize| 1 <= r <= n,
        |r: usize|
            match owner(list, store, r) {
                Some(w) => MasView { word: w, ..moved_english(es, store, r) },
                None => moved_english(es, store, r),
            },
    )
}

/// The moves that the English entries `es` make, in order: each English
/// line whose word the store ranks elsewhere moves from its rank to that one.
pub open spec fn moves(es: Seq<(usize, MasView)>, store: Map<Seq<char>, usize>) -> Seq<Change>
    decreases es.len(),
{
    if es.len() == 0 {
        seq![]
    } else {
        let prev = moves(es.drop_last(), store);
        let e = es.last();
        if store.contains_key(e.1.word) && store[e.1.word] != e.0 {
            prev.push(Change { new: store[e.1.word], old: e.0 })
        } else {
            prev
        }
    }
}

/// Some move goes to rank `r`.
pub open spec fn is_new(cs: Seq<Change>, r: usize) -> bool {
    exists|i: int| 0 <= i < cs.len() && (#[trigger] cs[i]).new == r
}

/// Some move leaves rank `k`.
pub open spec fn is_old(cs: Seq<Change>, k: usize) -> bool {
    exists|i: int| 0 <= i < cs.len() && (#[trigger] cs[i]).old == k
}

/// The rank that the last move to `r` leaves.
pub open spec fn last_old(cs: Seq<Change>, r: usize) -> usize
    decreases cs.len(),
{
    if cs.len() == 0 {
        0
    } else if cs.last().new == r {
        cs.last().old
    } else {
        last_old(cs.drop_last(), r)
    }
}

/// Every move to `r` comes from a line with the same word as the last one.
pub open spec fn agree(l: Map<usize, MasView>, cs: Seq<Change>, r: usize) -> bool {
    forall|i: int|
        0 <= i < cs.len() && (#[trigger] cs[i]).new == r ==> l[cs[i].old].word == l[last_old(
            cs,
            r,
        )].word
}

/// A language file `l` after the moves `cs`, over the ranks 1 to `n`: a rank
/// that moves receive gets the line of the last move to it, renumbered, if
/// all its moves bring the same word, and a placeholder if not; a rank that
/// no move touches keeps its line; any other rank from 1 to `n` gets a
/// placeholder.
pub open spec fn synced(l: Map<usize, MasView>, cs: Seq<Change>, n: int) -> Map<usize, MasView> {
    Map::new(
        |r: usize| 1 <= r <= n || is_new(cs, r) || (l.contains_key(r) && !is_old(cs, r)),
        |r: usize|
            if is_new(cs, r) {
                if agree(l, cs, r) {
                    MasView { rank: r, ..l[last_old(cs, r)] }
                } else {
                    placeholder(r)
                }
            } else if l.contains_key(r) && !is_old(cs, r) {
                l[r]
            } else {
                placeholder(r)
            },
    )
}

/// How many of the entries `es` have the word `w`.
pub open spec fn count_word(es: Seq<(usize, MasView)>, w: Seq<char>) -> nat
    decreases es.len(),
{
    if es.len() == 0 {
        0
    } else {
        count_word(es.drop_last(), w) + if es.last().1.word == w {
            1nat
        } else {
            0nat
        }
    }
}

/// The word written for an entry preceded by `c` entries with the same word:
/// the word itself the first time, then `word-1`, `word-2`, ...; a
/// placeholder word is written as it is.
pub open spec fn label(word: Seq<char>, c: nat) -> Seq<char> {
    if word == seq!['w'] || c == 0 {
        word
    } else {
        word + seq!['-'] + decimal(c)
    }
}

/// One line of a written language file: `rank, label, sentence`.
pub open spec fn written_line(e: (usize, MasView), c: nat) -> Seq<char> {
    decimal(e.0 as nat) + seq![',', ' '] + label(e.1.word, c) + seq![',', ' '] + e.1.sentence
        + seq!['\n']
}

/// The written lines of the entries `es`, in order.
pub open spec fn written(es: Seq<(usize, MasView)>) -> Seq<char>
    decreases es.len(),
{
    if es.len() == 0 {
        seq![]
    } else {
        written(es.drop_last()) + written_line(es.last(), count_word(es.drop_last(), es.last().1.word))
    }
}

/// The entries of `es` whose rank is in `keys`, in order.
pub open spec fn with_keys(es: Seq<(usize, MasView)>, keys: Set<usize>) -> Seq<(usize, MasView)>
    decreases es.len(),
{
    if es.len() == 0 {
        seq![]
    } else if keys.contains(es.last().0) {
        with_keys(es.drop_last(), keys).push(es.last())
    } else {
        with_keys(es.drop_last(), keys)
    }
}

/// Everything one word type needs while its language files are synchronised.
pub struct Spoken {
    /// The words of the type, in vocabulary order.
    pub list: Vec<String>,
    /// The names of the language files other than English.
    pub files_names: Vec<String>,
    /// Each word's rank.
    pub store: StringHashMap<usize>,
    /// The synchronised language files.
    pub release: Vec<Lang>,
    /// The ranks that the written files keep.
    pub keys: HashSet<usize>,
    pub folder_name: String,
    pub english_path: String,
}

proof fn lemma_count_word_bound(es: Seq<(usize, MasView)>, w: Seq<char>)
    ensures
        count_word(es, w) <= es.len(),
    decreases es.len(),
{
    if es.len() > 0 {
        lemma_count_word_bound(es.drop_last(), w);
    }
}

proof fn lemma_with_keys_len(es: Seq<(usize, MasView)>, keys: Set<usize>)
    ensures
        with_keys(es, keys).len() <= es.len(),
    decreases es.len(),
{
    if es.len() > 0 {
        lemma_with_keys_len(es.drop_last(), keys);
    }
}

/// The text written for the language file `data`, keeping the ranks in `keys`.
fn compose_lang(data: &RankMap, keys: &HashSet<usize>) -> (text: String)
    requires
        data.wf(),
    ensures
        text@ == written(with_keys(data.seq(), keys@)),
{
    broadcast use vstd::std_specs::hash::group_hash_axioms;

    let ghost es = data.seq();
    let mut table: StringHashMap<usize> = StringHashMap::new();
    let mut content = String::new();
    let w = "w".to_owned();
    proof {
        reveal_strlit("w");
        reveal_strlit(", ");
        reveal_strlit("-");
        reveal_strlit("\n");
        assert(w@ =~= seq!['w']);
    }
    let len = data.len();
    for j in 0..len
        invariant
            es == data.seq(),
            len == es.len(),
            w@ == seq!['w'],
            content@ == written(with_keys(es.take(j as int), keys@)),
            forall|x: Seq<char>| #[trigger]
                table@.contains_key(x) <==> x != seq!['w'] && count_word(
                    with_keys(es.take(j as int), keys@),
                    x,
                ) > 0,
            forall|x: Seq<char>| #[trigger]
                table@.contains_key(x) ==> table@[x] == count_word(
                    with_keys(es.take(j as int), keys@),
                    x,
                ),
    {
        let ghost kept = with_keys(es.take(j as int), keys@);
        proof {
            assert(es.take(j + 1).drop_last() =~= es.take(j as int));
            assert(es.take(j + 1).last() == es[j as int]);
            lemma_with_keys_len(es.take(j as int), keys@);
        }
        let (rank, mas) = data.entry(j);
        proof {
            reveal_strlit(", ");
            reveal_strlit("-");
            reveal_strlit("\n");
            assert(", "@ =~= seq![',', ' ']);
            assert("-"@ =~= seq!['-']);
            assert("\n"@ =~= seq!['\n']);
        }
        if keys.contains(&rank) {
            let ghost e = es[j as int];
            let ghost c = count_word(kept, e.1.word);
            let ghost kept2 = kept.push(e);
            assert(kept2.drop_last() =~= kept);
            let mut line = decimal_string(rank);
            line.append(", ");
            if mas.word != w {
                match table.get(mas.word.as_str()) {
                    Some(start) => {
                        let start = *start;
                        assert(start == c);
                        line.append(mas.word.as_str());
                        line.append("-");
                        let num = decimal_string(start);
                        line.append(num.as_str());
                        proof {
                            lemma_count_word_bound(kept, e.1.word);
                        }
                        table.insert(mas.word.clone(), start + 1);
                    },
                    None => {
                        assert(c == 0);
                        line.append(mas.word.as_str());
                        table.insert(mas.word.clone(), 1);
                    },
                }
            } else {
                line.append(mas.word.as_str());
            }
            line.append(", ");
            line.append(mas.sentence.as_str());
            line.append("\n");
            assert(line@ =~= written_line(e, c));
            content.append(line.as_str());
            proof {
                assert forall|x: Seq<char>| #[trigger]
                    table@.contains_key(x) <==> x != seq!['w'] && count_word(kept2, x) > 0 by {
                }
                assert forall|x: Seq<char>| #[trigger]
                    table@.contains_key(x) implies table@[x] == count_word(kept2, x) by {
                }
            }
        }
    }
    assert(es.take(len as int) =~= es);
    content
}

/// The English lines moved to the store's ranks, over the ranks 1 to `n`.
pub open spec fn moved_map(es: Seq<(usize, MasView)>, store: Map<Seq<char>, usize>, n: int) -> Map<
    usize,
    MasView,
> {
    Map::new(|r: usize| 1 <= r <= n, |r: usize| moved_english(es, store, r))
}

/// The store ranks every English word it knows within 1 to `n`.
pub open spec fn ranks_within(es: Seq<(usize, MasView)>, store: Map<Seq<char>, usize>, n: int) -> bool {
    forall|i: int|
        0 <= i < es.len() && store.contains_key((#[trigger] es[i]).1.word) ==> 1 <= store[es[i].1.word]
            <= n
}

/// Moves each English line to the rank that the store gives its word.
fn move_english(english: &RankMap, store: &StringHashMap<usize>, n: usize, english_path: &str) -> (res: (
    Lang,
    Vec<Change>,
))
    requires
        english.wf(),
        ranks_within(english.seq(), store@, n as int),
    ensures
        res.0.data.wf(),
        res.0.file_name@ == english_path@,
        res.0.data@ == moved_map(english.seq(), store@, n as int),
        res.1@ == moves(english.seq(), store@),
{
    let ghost es = english.seq();
    let mut ne = Lang::new_clean(n, english_path);
    let mut changes: Vec<Change> = Vec::new();
    assert(ne.data@ =~= moved_map(es.take(0), store@, n as int));
    let len = english.len();
    for j in 0..len
        invariant
            es == english.seq(),
            len == es.len(),
            ranks_within(es, store@, n as int),
            ne.data.wf(),
            ne.file_name@ == english_path@,
            ne.data@ == moved_map(es.take(j as int), store@, n as int),
            changes@ == moves(es.take(j as int), store@),
    {
        proof {
            assert(es.take(j + 1).drop_last() =~= es.take(j as int));
            assert(es.take(j + 1).last() == es[j as int]);
        }
        let (old_rank, mas) = english.entry(j);
        let ghost e = es[j as int];
        match store.get(mas.word.as_str()) {
            Some(new_rank) => {
                let nr = *new_rank;
                assert(ranked_at(store@, e, nr));
                let node = mas.clone();
                ne.data.insert(nr, node);
                if nr != old_rank {
                    changes.push(Change::new(nr, old_rank));
                }
                assert forall|r: usize| r != nr implies !#[trigger] ranked_at(store@, e, r) by {}
            },
            None => {
                assert forall|r: usize| !#[trigger] ranked_at(store@, e, r) by {}
            },
        }
        assert(ne.data@ =~= moved_map(es.take(j + 1), store@, n as int));
    }
    assert(es.take(len as int) =~= es);
    (ne, changes)
}

/// The map `m` with the word of each rank that a word of the list owns
/// replaced by that word, for the ranks up to `upto`.
pub open spec fn renamed(
    m: Map<usize, MasView>,
    list: Seq<Seq<char>>,
    store: Map<Seq<char>, usize>,
    upto: int,
) -> Map<usize, MasView> {
    Map::new(
        |r: usize| m.contains_key(r),
        |r: usize|
            match owner(list, store, r) {
                Some(w) => if r <= upto {
                    MasView { word: w, ..m[r] }
                } else {
                    m[r]
                },
                None => m[r],
            },
    )
}

proof fn lemma_ranks_of_knows_list(m: Map<Seq<char>, usize>, ls: Seq<Seq<char>>, i: int)
    requires
        0 <= i < ls.len(),
    ensures
        ranks_of(m, ls).contains_key(ls[i]),
    decreases ls.len(),
{
    if i < ls.len() - 1 {
        lemma_ranks_of_knows_list(m, ls.drop_last(), i);
        assert(ls.drop_last()[i] == ls[i]);
    }
}

/// Gives each rank that a word of `list` owns that word.
fn rename_owned(ne: &mut Lang, list: &Vec<String>, store: &StringHashMap<usize>)
    requires
        old(ne).data.wf(),
        store@ == ranks_of(Map::empty(), views(list@)),
    ensures
        final(ne).data.wf(),
        final(ne).file_name == old(ne).file_name,
        final(ne).data@ == renamed(old(ne).data@, views(list@), store@, list@.len() as int),
{
    let ghost ls = views(list@);
    let ghost m = ne.data@;
    assert(ne.data@ =~= renamed(m, ls, store@, 0));
    for i in 0..list.len()
        invariant
            ls == views(list@),
            store@ == ranks_of(Map::empty(), ls),
            ne.data.wf(),
            ne.file_name == old(ne).file_name,
            m == old(ne).data@,
            ne.data@ == renamed(m, ls, store@, i as int),
    {
        let w = &list[i];
        proof {
            assert(w@ == ls[i as int]);
            lemma_ranks_of_knows_list(Map::empty(), ls, i as int);
        }
        let rank = *store.get(w.as_str()).unwrap();
        if rank == i + 1 {
            let r = i + 1;
            assert(owner(ls, store@, r) == Some(w@));
            match ne.data.get(r) {
                Some(cur) => {
                    if cur.word != *w {
                        let mut m2 = cur.clone();
                        m2.word = w.clone();
                        ne.data.insert(r, m2);
                    }
                },
                None => {},
            }
        } else {
            assert(owner(ls, store@, (i + 1) as usize) is None);
        }
        assert(ne.data@ =~= renamed(m, ls, store@, i + 1));
    }
}

/// Stage of a language file after the first `i` moves: each rank a move
/// reaches holds the line of the last move to it, renumbered; the other
/// ranks from 1 to `n` hold placeholders.
pub open spec fn moved_lines(l: Map<usize, MasView>, cs: Seq<Change>, n: int) -> Map<usize, MasView> {
    Map::new(
        |r: usize| 1 <= r <= n || is_new(cs, r),
        |r: usize|
            if is_new(cs, r) {
                MasView { rank: r, ..l[last_old(cs, r)] }
            } else {
                placeholder(r)
            },
    )
}

/// Some entry of `es` has rank `r`.
pub open spec fn has_rank(es: Seq<(usize, MasView)>, r: usize) -> bool {
    exists|t: int| 0 <= t < es.len() && (#[trigger] es[t]).0 == r
}

/// Stage of a language file after its untouched lines have been carried
/// over, for the entries of `es`.
pub open spec fn carried_lines(
    l: Map<usize, MasView>,
    cs: Seq<Change>,
    n: int,
    es: Seq<(usize, MasView)>,
) -> Map<usize, MasView> {
    Map::new(
        |r: usize|
            1 <= r <= n || is_new(cs, r) || (!is_old(cs, r) && has_rank(es, r)),
        |r: usize|
            if is_new(cs, r) {
                MasView { rank: r, ..l[last_old(cs, r)] }
            } else if !is_old(cs, r) && has_rank(es, r) {
                l[r]
            } else {
                placeholder(r)
            },
    )
}

/// Some of the first moves to `r` bring a word other than the last one's.
pub open spec fn clash_before(l: Map<usize, MasView>, cs: Seq<Change>, r: usize, i: int) -> bool {
    exists|t: int|
        0 <= t < i && (#[trigger] cs[t]).new == r && l[cs[t].old].word != l[last_old(cs, r)].word
}

/// Stage of a language file after the first `i` moves have been checked
/// for agreement.
pub open spec fn checked_lines(l: Map<usize, MasView>, cs: Seq<Change>, n: int, i: int) -> Map<
    usize,
    MasView,
> {
    Map::new(
        |r: usize| 1 <= r <= n || is_new(cs, r) || (l.contains_key(r) && !is_old(cs, r)),
        |r: usize|
            if is_new(cs, r) {
                if clash_before(l, cs, r, i) {
                    placeholder(r)
                } else {
                    MasView { rank: r, ..l[last_old(cs, r)] }
                }
            } else if l.contains_key(r) && !is_old(cs, r) {
                l[r]
            } else {
                placeholder(r)
            },
    )
}

proof fn lemma_last_old_step(cs: Seq<Change>, i: int, r: usize)
    requires
        0 <= i < cs.len(),
    ensures
        last_old(cs.take(i + 1), r) == if cs[i].new == r {
            cs[i].old
        } else {
            last_old(cs.take(i), r)
        },
        is_new(cs.take(i + 1), r) == (is_new(cs.take(i), r) || cs[i].new == r),
{
    let a = cs.take(i + 1);
    assert(a.drop_last() =~= cs.take(i));
    assert(a.last() == cs[i]);
    if is_new(a, r) && cs[i].new != r {
        let t = choose|t: int| 0 <= t < a.len() && (#[trigger] a[t]).new == r;
        assert(cs.take(i)[t] == a[t]);
    }
    if is_new(cs.take(i), r) {
        let t = choose|t: int| 0 <= t < i && (#[trigger] cs.take(i)[t]).new == r;
        assert(a[t] == cs.take(i)[t]);
    }
    if cs[i].new == r {
        assert(a[i] == cs[i]);
    }
}

pub proof fn lemma_last_old_is_old(cs: Seq<Change>, r: usize)
    requires
        is_new(cs, r),
    ensures
        exists|t: int| 0 <= t < cs.len() && (#[trigger] cs[t]).new == r && cs[t].old == last_old(cs, r),
    decreases cs.len(),
{
    if cs.last().new == r {
        assert(cs[cs.len() - 1].old == last_old(cs, r));
    } else {
        let p = cs.drop_last();
        let t = choose|t: int| 0 <= t < cs.len() && (#[trigger] cs[t]).new == r;
        assert(p[t] == cs[t]);
        lemma_last_old_is_old(p, r);
        let u = choose|u: int| 0 <= u < p.len() && (#[trigger] p[u]).new == r && p[u].old == last_old(p, r);
        assert(cs[u] == p[u]);
    }
}

/// The language file `l` after the moves `changes`, over the ranks 1 to `n`.
fn sync_lang(l: &Lang, changes: &Vec<Change>, n: usize, file_name: &str) -> (res: Lang)
    requires
        l.data.wf(),
        forall|i: int| 0 <= i < changes@.len() ==> l.data@.contains_key((#[trigger] changes@[i]).old),
    ensures
        res.data.wf(),
        res.file_name@ == file_name@,
        res.data@ == synced(l.data@, changes@, n as int),
{
    broadcast use vstd::std_specs::hash::group_hash_axioms;

    let ghost lm = l.data@;
    let ghost cs = changes@;
    let mut empty = Lang::new_clean(n, file_name);
    let mut do_not_update: HashSet<usize> = HashSet::new();
    let mut olds: HashSet<usize> = HashSet::new();
    assert(empty.data@ =~= moved_lines(lm, cs.take(0), n as int));
    for i in 0..changes.len()
        invariant
            lm == l.data@,
            cs == changes@,
            l.data.wf(),
            forall|i: int| 0 <= i < cs.len() ==> lm.contains_key((#[trigger] cs[i]).old),
            empty.data.wf(),
            empty.file_name@ == file_name@,
            empty.data@ == moved_lines(lm, cs.take(i as int), n as int),
            forall|r: usize| #[trigger] do_not_update@.contains(r) <==> is_new(cs.take(i as int), r),
            forall|k: usize| #[trigger] olds@.contains(k) <==> is_old(cs.take(i as int), k),
    {
        let c = changes[i];
        let mut new_mas = l.data.get(c.old).unwrap().clone();
        new_mas.rank = c.new;
        empty.data.insert(c.new, new_mas);
        do_not_update.insert(c.new);
        olds.insert(c.old);
        proof {
            let a = cs.take(i + 1);
            assert(a.drop_last() =~= cs.take(i as int));
            assert(a[i as int] == c);
            assert forall|r: usize| #[trigger] do_not_update@.contains(r) <==> is_new(a, r) by {
                lemma_last_old_step(cs, i as int, r);
            }
            assert forall|k: usize| #[trigger] olds@.contains(k) <==> is_old(a, k) by {
                if is_old(a, k) && c.old != k {
                    let t = choose|t: int| 0 <= t < a.len() && (#[trigger] a[t]).old == k;
                    assert(cs.take(i as int)[t] == a[t]);
                }
                if is_old(cs.take(i as int), k) {
                    let t = choose|t: int| 0 <= t < i && (#[trigger] cs.take(i as int)[t]).old == k;
                    assert(a[t] == cs.take(i as int)[t]);
                }
            }
            assert forall|r: usize| #![auto] empty.data@.contains_key(r) == moved_lines(lm, a, n as int).contains_key(r)
                && (empty.data@.contains_key(r) ==> empty.data@[r] == moved_lines(lm, a, n as int)[r]) by {
                lemma_last_old_step(cs, i as int, r);
            }
            assert(empty.data@ =~= moved_lines(lm, a, n as int));
        }
    }
    proof {
        assert(cs.take(cs.len() as int) =~= cs);
    }
    let ghost es = l.data.seq();
    assert(empty.data@ =~= carried_lines(lm, cs, n as int, es.take(0)));
    let len = l.data.len();
    for j in 0..len
        invariant
            lm == l.data@,
            cs == changes@,
            es == l.data.seq(),
            len == es.len(),
            l.data.wf(),
            empty.data.wf(),
            empty.file_name@ == file_name@,
            empty.data@ == carried_lines(lm, cs, n as int, es.take(j as int)),
            forall|r: usize| #[trigger] do_not_update@.contains(r) <==> is_new(cs, r),
            forall|k: usize| #[trigger] olds@.contains(k) <==> is_old(cs, k),
    {
        let (key, mas) = l.data.entry(j);
        proof {
            l.data.lemma_entry_in_view(j as int);
        }
        if !do_not_update.contains(&key) && !olds.contains(&key) {
            empty.data.insert(key, mas.clone());
        }
        proof {
            let p = es.take(j as int);
            let a = es.take(j + 1);
            assert(a[j as int] == es[j as int]);
            assert forall|r: usize| #[trigger] has_rank(a, r) <==> (has_rank(p, r) || es[j as int].0 == r) by {
                if has_rank(a, r) {
                    let t = choose|t: int| 0 <= t < a.len() && (#[trigger] a[t]).0 == r;
                    if t < j {
                        assert(p[t] == a[t]);
                    }
                }
                if has_rank(p, r) {
                    let t = choose|t: int| 0 <= t < p.len() && (#[trigger] p[t]).0 == r;
                    assert(a[t] == p[t]);
                }
            }
            assert(empty.data@ =~= carried_lines(lm, cs, n as int, a));
        }
    }
    proof {
        assert(es.take(len as int) =~= es);
        assert forall|r: usize| #[trigger] lm.contains_key(r) <==> has_rank(es, r) by {
            if lm.contains_key(r) {
                l.data.lemma_view_in_entries(r);
            }
            if has_rank(es, r) {
                let t = choose|t: int| 0 <= t < es.len() && (#[trigger] es[t]).0 == r;
                l.data.lemma_entry_in_view(t);
            }
        }
        assert(empty.data@ =~= checked_lines(lm, cs, n as int, 0));
    }
    for i in 0..changes.len()
        invariant
            lm == l.data@,
            cs == changes@,
            l.data.wf(),
            forall|i: int| 0 <= i < cs.len() ==> lm.contains_key((#[trigger] cs[i]).old),
            empty.data.wf(),
            empty.file_name@ == file_name@,
            empty.data@ == checked_lines(lm, cs, n as int, i as int),
    {
        let c = changes[i];
        proof {
            assert(is_new(cs, c.new));
            assert(cs[i as int] == c);
        }
        let left = empty.data.get(c.new).unwrap();
        let right = l.data.get(c.old).unwrap();
        if left.word != right.word {
            empty.data.insert(c.new, placeholder_mas(c.new));
        }
        proof {
            assert forall|r: usize| clash_before(lm, cs, r, i + 1) == (clash_before(lm, cs, r, i as int)
                || (c.new == r && lm[c.old].word != lm[last_old(cs, r)].word)) by {
                if clash_before(lm, cs, r, i + 1) && !clash_before(lm, cs, r, i as int) {
                    let t = choose|t: int|
                        0 <= t < i + 1 && (#[trigger] cs[t]).new == r && lm[cs[t].old].word != lm[last_old(
                            cs,
                            r,
                        )].word;
                    assert(t == i);
                }
            }
            assert(empty.data@ =~= checked_lines(lm, cs, n as int, i + 1));
        }
    }
    proof {
        assert forall|r: usize| is_new(cs, r) implies clash_before(lm, cs, r, cs.len() as int) == !agree(lm, cs, r) by {
        }
        assert(empty.data@ =~= synced(lm, cs, n as int));
    }
    empty
}

/// The word-type synchronisation: ranks the words, moves the lines of each
/// language file to the new ranks and renders the files.
pub struct App;

impl App {
    /// The text of each synchronised language file, in the order of
    /// `conn.release`.
    pub fn compose(conn: &Spoken) -> (texts: Vec<String>)
        requires
            forall|i: int| 0 <= i < conn.release@.len() ==> (#[trigger] conn.release@[i]).data.wf(),
        ensures
            texts@.len() == conn.release@.len(),
            forall|i: int|
                0 <= i < texts@.len() ==> (#[trigger] texts@[i])@ == written(
                    with_keys(conn.release@[i].data.seq(), conn.keys@),
                ),
    {
        let mut texts: Vec<String> = Vec::new();
        for i in 0..conn.release.len()
            invariant
                forall|i: int| 0 <= i < conn.release@.len() ==> (#[trigger] conn.release@[i]).data.wf(),
                texts@.len() == i,
                forall|k: int|
                    0 <= k < i ==> (#[trigger] texts@[k])@ == written(
                        with_keys(conn.release@[k].data.seq(), conn.keys@),
                    ),
        {
            texts.push(compose_lang(&conn.release[i].data, &conn.keys));
        }
        texts
    }

    /// Synchronises the language files of the word type: the English file
    /// `english` and the others `others` (in the order of
    /// `conn.files_names`) are moved to the ranks of `conn.store`; the
    /// results are appended to `conn.release`, and the text of every file in
    /// `conn.release` is returned, in order.
    pub fn process(conn: &mut Spoken, english: Lang, others: Vec<Lang>) -> (texts: Vec<String>)
        requires
            old(conn).store@ == ranks_of(Map::empty(), views(old(conn).list@)),
            english.data.wf(),
            ranks_within(english.data.seq(), old(conn).store@, old(conn).store@.len() as int),
            others@.len() == old(conn).files_names@.len(),
            forall|j: int| 0 <= j < others@.len() ==> (#[trigger] others@[j]).data.wf(),
            forall|j: int, i: int|
                0 <= j < others@.len() && 0 <= i < moves(english.data.seq(), old(conn).store@).len()
                    ==> (#[trigger] others@[j]).data@.contains_key(
                    (#[trigger] moves(english.data.seq(), old(conn).store@)[i]).old,
                ),
            forall|i: int| 0 <= i < old(conn).release@.len() ==> (#[trigger] old(conn).release@[i]).data.wf(),
        ensures
            final(conn).release@.len() == old(conn).release@.len() + 1 + others@.len(),
            forall|i: int| 0 <= i < old(conn).release@.len() ==> final(conn).release@[i] == old(conn).release@[i],
            final(conn).release@[old(conn).release@.len() as int].file_name@ == old(conn).english_path@,
            final(conn).release@[old(conn).release@.len() as int].data@ == english_synced(
                english.data.seq(),
                old(conn).store@,
                views(old(conn).list@),
                old(conn).store@.len() as int,
            ),
            forall|j: int|
                0 <= j < others@.len() ==> {
                    &&& (#[trigger] final(conn).release@[old(conn).release@.len() + 1 + j]).file_name@
                        == old(conn).files_names@[j]@
                    &&& final(conn).release@[old(conn).release@.len() + 1 + j].data@ == synced(
                        others@[j].data@,
                        moves(english.data.seq(), old(conn).store@),
                        old(conn).store@.len() as int,
                    )
                },
            forall|i: int| 0 <= i < final(conn).release@.len() ==> (#[trigger] final(conn).release@[i]).data.wf(),
            final(conn).list == old(conn).list,
            final(conn).files_names == old(conn).files_names,
            final(conn).store == old(conn).store,
            final(conn).keys == old(conn).keys,
            final(conn).folder_name == old(conn).folder_name,
            final(conn).english_path == old(conn).english_path,
            texts@.len() == final(conn).release@.len(),
            forall|i: int|
                0 <= i < texts@.len() ==> (#[trigger] texts@[i])@ == written(
                    with_keys(final(conn).release@[i].data.seq(), final(conn).keys@),
                ),
    {
        let n = conn.store.len();
        let ghost es = english.data.seq();
        let ghost store = conn.store@;
        let ghost old_len = conn.release@.len();
        let (mut new_english, changes) = move_english(&english.data, &conn.store, n, conn.english_path.as_str());
        rename_owned(&mut new_english, &conn.list, &conn.store);
        assert(new_english.data@ =~= english_synced(es, store, views(conn.list@), n as int));
        conn.release.push(new_english);
        for j in 0..others.len()
            invariant
                others@.len() == conn.files_names@.len(),
                n == store.len(),
                es == english.data.seq(),
                store == conn.store@,
                changes@ == moves(es, store),
                forall|j: int| 0 <= j < others@.len() ==> (#[trigger] others@[j]).data.wf(),
                forall|j: int, i: int|
                    0 <= j < others@.len() && 0 <= i < moves(es, store).len()
                        ==> (#[trigger] others@[j]).data@.contains_key(
                        (#[trigger] moves(es, store)[i]).old,
                    ),
                conn.release@.len() == old_len + 1 + j,
                forall|i: int| 0 <= i < old_len ==> conn.release@[i] == old(conn).release@[i],
                conn.release@[old_len as int].file_name@ == old(conn).english_path@,
                conn.release@[old_len as int].data@ == english_synced(es, store, views(old(conn).list@), n as int),
                forall|k: int|
                    0 <= k < j ==> {
                        &&& (#[trigger] conn.release@[old_len + 1 + k]).file_name@
                            == old(conn).files_names@[k]@
                        &&& conn.release@[old_len + 1 + k].data@ == synced(
                            others@[k].data@,
                            moves(es, store),
                            n as int,
                        )
                    },
                forall|i: int| 0 <= i < conn.release@.len() ==> (#[trigger] conn.release@[i]).data.wf(),
                conn.list == old(conn).list,
                conn.files_names == old(conn).files_names,
                conn.store == old(conn).store,
                conn.keys == old(conn).keys,
                conn.folder_name == old(conn).folder_name,
                conn.english_path == old(conn).english_path,
        {
            proof {
                assert forall|i: int| 0 <= i < changes@.len() implies others@[j as int].data@.contains_key(
                    (#[trigger] changes@[i]).old,
                ) by {
                    assert(others@[j as int].data@.contains_key(moves(es, store)[i].old));
                }
            }
            let empty = sync_lang(&others[j], &changes, n, conn.files_names[j].as_str());
            conn.release.push(empty);
        }
        App::compose(conn)
    }

    /// Whether the store ranks every English word it knows within 1 to the
    /// number of words it ranks; if not, [`App::process`] cannot run.
    pub fn english_fits(conn: &Spoken, english: &Lang) -> (ok: bool)
        requires
            english.data.wf(),
        ensures
            ok == ranks_within(english.data.seq(), conn.store@, conn.store@.len() as int),
    {
        let n = conn.store.len();
        let ghost es = english.data.seq();
        let len = english.data.len();
        for j in 0..len
            invariant
                es == english.data.seq(),
                len == es.len(),
                n == conn.store@.len(),
                ranks_within(es.take(j as int), conn.store@, n as int),
        {
            let (_, mas) = english.data.entry(j);
            match conn.store.get(mas.word.as_str()) {
                Some(r) => {
                    if *r < 1 || *r > n {
                        assert(es[j as int].1.word == mas.word@);
                        return false;
                    }
                },
                None => {},
            }
            assert forall|i: int|
                0 <= i < j + 1 && conn.store@.contains_key((#[trigger] es.take(j + 1)[i]).1.word) implies 1
                <= conn.store@[es.take(j + 1)[i].1.word] <= n by {
                if i < j {
                    assert(es.take(j + 1)[i] == es.take(j as int)[i]);
                }
            }
        }
        assert(es.take(len as int) =~= es);
        true
    }

    /// The moves that the English file makes under the store's ranks.
    pub fn moves_of(conn: &Spoken, english: &Lang) -> (changes: Vec<Change>)
        requires
            english.data.wf(),
        ensures
            changes@ == moves(english.data.seq(), conn.store@),
    {
        let ghost es = english.data.seq();
        let mut changes: Vec<Change> = Vec::new();
        let len = english.data.len();
        for j in 0..len
            invariant
                es == english.data.seq(),
                len == es.len(),
                changes@ == moves(es.take(j as int), conn.store@),
        {
            proof {
                assert(es.take(j + 1).drop_last() =~= es.take(j as int));
                assert(es.take(j + 1).last() == es[j as int]);
            }
            let (old_rank, mas) = english.data.entry(j);
            match conn.store.get(mas.word.as_str()) {
                Some(r) => {
                    if *r != old_rank {
                        changes.push(Change::new(*r, old_rank));
                    }
                },
                None => {},
            }
        }
        assert(es.take(len as int) =~= es);
        changes
    }

    /// Whether every rank that the moves `changes` leave has a line in
    /// `lang`; if not, [`App::process`] cannot run.
    pub fn lang_fits(changes: &Vec<Change>, lang: &Lang) -> (ok: bool)
        requires
            lang.data.wf(),
        ensures
            ok == forall|i: int| 0 <= i < changes@.len() ==> lang.data@.contains_key((#[trigger] changes@[i]).old),
    {
        for i in 0..changes.len()
            invariant
                lang.data.wf(),
                forall|k: int| 0 <= k < i ==> lang.data@.contains_key((#[trigger] changes@[k]).old),
        {
            if !lang.data.contains(changes[i].old) {
                return false;
            }
        }
        true
    }

    /// Gives each word of `conn.list` its rank: the position (from 1) of its
    /// last occurrence; every position becomes a kept rank.
    pub fn start(conn: &mut Spoken)
        ensures
            final(conn).store@ == ranks_of(old(conn).store@, views(old(conn).list@)),
            final(conn).keys@ == old(conn).keys@ + rank_range(old(conn).list@.len() as int),
            final(conn).list == old(conn).list,
            final(conn).files_names == old(conn).files_names,
            final(conn).release == old(conn).release,
            final(conn).folder_name == old(conn).folder_name,
            final(conn).english_path == old(conn).english_path,
    {
        broadcast use vstd::std_specs::hash::group_hash_axioms;

        let ghost ls = views(conn.list@);
        let ghost m0 = conn.store@;
        let ghost k0 = conn.keys@;
        let n = conn.list.len();
        for i in 0..n
            invariant
                n == conn.list@.len(),
                ls == views(conn.list@),
                conn.store@ == ranks_of(m0, ls.take(i as int)),
                conn.keys@ == k0 + rank_range(i as int),
                conn.list == old(conn).list,
                conn.files_names == old(conn).files_names,
                conn.release == old(conn).release,
                conn.folder_name == old(conn).folder_name,
                conn.english_path == old(conn).english_path,
        {
            let word = conn.list[i].clone();
            proof {
                assert(ls.take(i + 1).drop_last() =~= ls.take(i as int));
                assert(ls.take(i + 1).last() == word@);
            }
            conn.keys.insert(i + 1);
            conn.store.insert(word, i + 1);
            assert(conn.keys@ =~= k0 + rank_range(i + 1));
        }
        assert(ls.take(n as int) =~= ls);
    }
}

impl Spoken {
    /// The word type `tipo`, with the words the vocabulary has for it and
    /// the files located by `file`.
    pub fn new(file: File, tipo: &String, sphere: &Sphere) -> (conn: Spoken)
        requires
            distinct_keys(sphere.vocabulary.data@),
        ensures
            views(conn.list@) == (match gfind(sphere.vocabulary.data@, tipo@) {
                Some(i) => sphere.vocabulary.data@[i].1.map_values(|m: sphere::MasView| m.word),
                None => Seq::<Seq<char>>::empty(),
            }),
            conn.files_names == file.files_names,
            conn.folder_name == file.folder_name,
            conn.english_path@ == seq!['e', 'n', 'g', 'l', 'i', 's', 'h', '.', 'o', 'n'],
            conn.store@ == Map::<Seq<char>, usize>::empty(),
            conn.keys@ == Set::<usize>::empty(),
            conn.release@.len() == 0,
    {
        broadcast use vstd::std_specs::hash::group_hash_axioms;

        let mut list: Vec<String> = Vec::new();
        match sphere.vocabulary.data.get(tipo.as_str()) {
            Some(ms) => {
                let ghost target = mas_views(ms@).map_values(|m: sphere::MasView| m.word);
                for i in 0..ms.len()
                    invariant
                        target == mas_views(ms@).map_values(|m: sphere::MasView| m.word),
                        list@.len() == i,
                        views(list@) == target.take(i as int),
                {
                    let w = ms[i].word.clone();
                    let ghost l0 = list@;
                    list.push(w);
                    assert(views(list@) =~= views(l0).push(w@));
                    assert(target[i as int] == w@);
                    assert(views(list@) =~= target.take(i + 1));
                }
                assert(target.take(ms@.len() as int) =~= target);
            },
            None => {
                assert(views(list@) =~= Seq::<Seq<char>>::empty());
            },
        }
        proof {
            reveal_strlit("english.on");
        }
        let english_path = "english.on".to_owned();
        assert(english_path@ =~= seq!['e', 'n', 'g', 'l', 'i', 's', 'h', '.', 'o', 'n']);
        Spoken {
            list,
            files_names: file.files_names,
            store: StringHashMap::new(),
            release: Vec::new(),
            keys: HashSet::new(),
            folder_name: file.folder_name,
            english_path,
        }
    }
}

/// The extension of language files.
pub open spec fn on_ext() -> Seq<char> {
    seq!['o', 'n']
}

/// The language files other than English, for the languages `langs`.
pub open spec fn other_files(langs: Seq<Seq<char>>) -> Seq<Seq<char>>
    decreases langs.len(),
{
    if langs.len() == 0 {
        seq![]
    } else if langs.last() == seq!['e', 'n', 'g', 'l', 'i', 's', 'h'] {
        other_files(langs.drop_last())
    } else {
        other_files(langs.drop_last()).push(langs.last() + seq!['.'] + on_ext())
    }
}

impl File {
    pub fn new() -> (f: File)
        ensures
            f.folder_name@ == Seq::<char>::empty(),
            f.files_names@.len() == 0,
            f.file_path@ == Seq::<char>::empty(),
    {
        File { folder_name: String::new(), files_names: Vec::new(), file_path: String::new() }
    }

    /// The files of the word type `folder`: its folder under `spoken/`, the
    /// file of each language other than English, and the English file.
    pub fn setup(self, folder: &String, connector: &Sync) -> (f: File)
        ensures
            f.folder_name@ == seq!['s', 'p', 'o', 'k', 'e', 'n', '/'] + folder@,
            views(f.files_names@) == other_files(views(connector.languages.folders@)),
            f.file_path@ == f.folder_name@ + seq!['/', 'e', 'n', 'g', 'l', 'i', 's', 'h', '.', 'o', 'n'],
    {
        proof {
            reveal_strlit("spoken/");
            reveal_strlit("english");
            reveal_strlit("on");
            reveal_strlit("/english.on");
        }
        let mut f = self;
        let mut folder_name = "spoken/".to_owned();
        folder_name.append(folder.as_str());
        assert(folder_name@ =~= seq!['s', 'p', 'o', 'k', 'e', 'n', '/'] + folder@);
        let langs = &connector.languages.folders;
        let ghost ls = views(langs@);
        let mut files_names: Vec<String> = Vec::new();
        for i in 0..langs.len()
            invariant
                ls == views(langs@),
                views(files_names@) == other_files(ls.take(i as int)),
        {
            proof {
                assert(ls.take(i + 1).drop_last() =~= ls.take(i as int));
                assert(ls.take(i + 1).last() == langs@[i as int]@);
                reveal_strlit("english");
                reveal_strlit("on");
                assert("english"@ =~= seq!['e', 'n', 'g', 'l', 'i', 's', 'h']);
                assert("on"@ =~= on_ext());
            }
            if !crate::text::str_eq(langs[i].as_str(), "english") {
                let name = dotted(langs[i].as_str(), "on");
                let ghost f0 = files_names@;
                files_names.push(name);
                assert(views(files_names@) =~= views(f0).push(name@));
            }
        }
        assert(ls.take(langs@.len() as int) =~= ls);
        let mut file_path = folder_name.clone();
        file_path.append("/english.on");
        assert(file_path@ =~= folder_name@ + seq!['/', 'e', 'n', 'g', 'l', 'i', 's', 'h', '.', 'o', 'n']);
        f.folder_name = folder_name;
        f.files_names = files_names;
        f.file_path = file_path;
        f
    }
}

/// The language folders of one word type.
#[derive(Debug)]
pub struct Carrier {
    pub dir: String,
    pub folder: String,
    pub types: Vec<String>,
    pub paths: Vec<String>,
}

impl Carrier {
    pub fn new() -> (c: Carrier)
        ensures
            c.dir@ == Seq::<char>::empty(),
            c.folder@ == Seq::<char>::empty(),
            c.types@.len() == 0,
            c.paths@.len() == 0,
    {
        Carrier { dir: String::new(), folder: String::new(), types: Vec::new(), paths: Vec::new() }
    }

    /// The carrier of `folder`, in directory `dir`, for the types `types`.
    pub fn build(self, folder: &String, types: &Vec<String>, dir: &String) -> (c: Carrier)
        ensures
            c.folder@ == folder@,
            views(c.types@) == views(types@),
            c.dir@ == dir@,
            c.paths == self.paths,
    {
        let mut c = self;
        c.folder = folder.clone();
        c.types = clone_strings(types);
        c.dir = dir.clone();
        c
    }
}

/// Copies of the strings `ss`.
pub fn clone_strings(ss: &Vec<String>) -> (res: Vec<String>)
    ensures
        views(res@) == views(ss@),
{
    let mut res: Vec<String> = Vec::new();
    for i in 0..ss.len()
        invariant
            res@.len() == i,
            views(res@) == views(ss@).take(i as int),
    {
        let s = ss[i].clone();
        let ghost r0 = res@;
        res.push(s);
        assert(views(res@) =~= views(r0).push(s@));
        assert(views(res@) =~= views(ss@).take(i + 1));
    }
    assert(views(ss@).take(ss@.len() as int) =~= views(ss@));
    res
}

/// The language file paths of the folder `dir`: one `lang.on` per language.
pub open spec fn lang_paths(dir: Seq<char>, langs: Seq<Seq<char>>) -> Seq<Seq<char>> {
    Seq::new(langs.len(), |i: int| joined(dir, langs[i] + seq!['.'] + on_ext()))
}

/// The languages and their folders of each word type.
#[derive(Debug)]
pub struct Languages {
    pub dir: String,
    pub folders: Vec<String>,
    pub carrier: Vec<Carrier>,
}

impl Languages {
    pub fn new() -> (l: Languages)
        ensures
            l.dir@ == Seq::<char>::empty(),
            l.folders@.len() == 0,
            l.carrier@.len() == 0,
    {
        Languages { dir: String::new(), folders: Vec::new(), carrier: Vec::new() }
    }

    /// One carrier per word type of `types`: its folder under this
    /// directory, with one file path per language. The folders and files
    /// are created by the caller where they are missing.
    pub fn put_carrier(&self, types: &Vec<String>) -> (acc: Vec<Carrier>)
        ensures
            acc@.len() == types@.len(),
            forall|i: int|
                0 <= i < acc@.len() ==> {
                    &&& (#[trigger] acc@[i]).folder@ == types@[i]@
                    &&& acc@[i].dir@ == joined(self.dir@, types@[i]@)
                    &&& views(acc@[i].types@) == views(types@)
                    &&& views(acc@[i].paths@) == lang_paths(acc@[i].dir@, views(self.folders@))
                },
    {
        proof {
            reveal_strlit("on");
        }
        let mut acc: Vec<Carrier> = Vec::new();
        for i in 0..types.len()
            invariant
                acc@.len() == i,
                forall|k: int|
                    0 <= k < i ==> {
                        &&& (#[trigger] acc@[k]).folder@ == types@[k]@
                        &&& acc@[k].dir@ == joined(self.dir@, types@[k]@)
                        &&& views(acc@[k].types@) == views(types@)
                        &&& views(acc@[k].paths@) == lang_paths(acc@[k].dir@, views(self.folders@))
                    },
        {
            let folder = &types[i];
            let dir = join_path(self.dir.as_str(), folder.as_str());
            let mut carrier = Carrier::new().build(folder, types, &dir);
            let ghost ls = views(self.folders@);
            for t in 0..self.folders.len()
                invariant
                    ls == views(self.folders@),
                    carrier.folder@ == folder@,
                    carrier.dir@ == dir@,
                    views(carrier.types@) == views(types@),
                    carrier.paths@.len() == t,
                    views(carrier.paths@) == lang_paths(dir@, ls).take(t as int),
            {
                proof {
                    reveal_strlit("on");
                }
                assert("on"@ =~= on_ext());
                let name = dotted(self.folders[t].as_str(), "on");
                let path = join_path(dir.as_str(), name.as_str());
                let ghost p0 = carrier.paths@;
                carrier.paths.push(path);
                assert(views(carrier.paths@) =~= views(p0).push(path@));
                assert(views(carrier.paths@) =~= lang_paths(dir@, ls).take(t + 1));
            }
            assert(lang_paths(dir@, ls).take(self.folders@.len() as int) =~= lang_paths(dir@, ls));
            acc.push(carrier);
        }
        acc
    }

    /// The languages, read from `languages_file` (the content of
    /// `config/languages.on`), and their folders under `spoken` in the
    /// connector's directory, one per word type of the sphere.
    pub fn setup(self, connector: &Sync, sphere: &Sphere, languages_file: &ReadParseFile) -> (l: Languages)
        ensures
            l.dir@ == joined(connector.dir@, seq!['s', 'p', 'o', 'k', 'e', 'n']),
            views(l.folders@) == ws_split(languages_file.content@),
            l.carrier@.len() == sphere.config.types.list@.len(),
            forall|i: int|
                0 <= i < l.carrier@.len() ==> {
                    &&& (#[trigger] l.carrier@[i]).folder@ == sphere.config.types.list@[i]@
                    &&& l.carrier@[i].dir@ == joined(l.dir@, sphere.config.types.list@[i]@)
                    &&& views(l.carrier@[i].types@) == views(sphere.config.types.list@)
                    &&& views(l.carrier@[i].paths@) == lang_paths(l.carrier@[i].dir@, views(l.folders@))
                },
    {
        proof {
            reveal_strlit("spoken");
        }
        let mut l = self;
        l.dir = join_path(connector.dir.as_str(), "spoken");
        assert("spoken"@ =~= seq!['s', 'p', 'o', 'k', 'e', 'n']);
        l.folders = languages_file.split_whitespace();
        l.carrier = l.put_carrier(&sphere.config.types.list);
        l
    }
}

/// The synchronisation of the language files with the vocabulary.
#[derive(Debug)]
pub struct Sync {
    pub languages: Languages,
    pub dir: String,
}

impl Sync {
    pub fn new() -> (s: Sync)
        ensures
            s.dir@ == Seq::<char>::empty(),
            s.languages.dir@ == Seq::<char>::empty(),
            s.languages.folders@.len() == 0,
            s.languages.carrier@.len() == 0,
    {
        Sync { languages: Languages::new(), dir: String::new() }
    }

    /// The synchronisation in the working directory `current_dir`, with the
    /// languages of `languages_file`.
    pub fn setup(self, sphere: &Sphere, current_dir: String, languages_file: &ReadParseFile) -> (s: Sync)
        ensures
            s.dir@ == current_dir@,
            s.languages.dir@ == joined(current_dir@, seq!['s', 'p', 'o', 'k', 'e', 'n']),
            views(s.languages.folders@) == ws_split(languages_file.content@),
            s.languages.carrier@.len() == sphere.config.types.list@.len(),
            forall|i: int|
                0 <= i < s.languages.carrier@.len() ==> {
                    &&& (#[trigger] s.languages.carrier@[i]).folder@ == sphere.config.types.list@[i]@
                    &&& s.languages.carrier@[i].dir@ == joined(
                        s.languages.dir@,
                        sphere.config.types.list@[i]@,
                    )
                    &&& views(s.languages.carrier@[i].types@) == views(sphere.config.types.list@)
                    &&& views(s.languages.carrier@[i].paths@) == lang_paths(
                        s.languages.carrier@[i].dir@,
                        views(s.languages.folders@),
                    )
                },
    {
        let mut s = self;
        s.dir = current_dir;
        let languages = Languages::new();
        s.languages = languages.setup(&s, sphere, languages_file);
        s
    }
}

/// Whether a line goes into a release: it has a real word and sentence, not a
/// placeholder word or sentence.
pub open spec fn released(m: MasView) -> bool {
    m.word != seq!['w'] && m.sentence != seq!['s']
}

/// A line of a release file: `rank,word,sentence`.
pub open spec fn release_line(m: MasView) -> Seq<char> {
    decimal(m.rank as nat) + seq![','] + m.word + seq![','] + m.sentence + seq!['\n']
}

/// The release file of the language file with lines `lines`.
pub open spec fn release_text(lines: Seq<Seq<char>>) -> Seq<char>
    decreases lines.len(),
{
    if lines.len() == 0 {
        seq![]
    } else if released(parsed(lines.last())) {
        release_text(lines.drop_last()) + release_line(parsed(lines.last()))
    } else {
        release_text(lines.drop_last())
    }
}

/// Number of lines of the release file of the lines `lines`.
pub open spec fn release_count(lines: Seq<Seq<char>>) -> nat
    decreases lines.len(),
{
    if lines.len() == 0 {
        0
    } else if released(parsed(lines.last())) {
        release_count(lines.drop_last()) + 1
    } else {
        release_count(lines.drop_last())
    }
}

proof fn lemma_release_count_bound(lines: Seq<Seq<char>>)
    ensures
        release_count(lines) <= lines.len(),
    decreases lines.len(),
{
    if lines.len() > 0 {
        lemma_release_count_bound(lines.drop_last());
    }
}

/// Release files: the filled-in lines of each language file.
pub struct Release;

impl Release {
    /// Whether every line of `content` can be read into a release; if not,
    /// the position (from 1) of the first line that cannot, and why.
    pub fn check(content: String) -> (res: Result<(), (usize, LineFault)>)
        ensures
            res is Ok <==> forall|i: int|
                0 <= i < lines_of(content@).len() ==> release_line_ok(#[trigger] lines_of(content@)[i]),
            res matches Err((n, f)) ==> {
                &&& 1 <= n <= lines_of(content@).len()
                &&& fault_of(lines_of(content@)[n - 1], true) == Some(f)
                &&& forall|i: int| 0 <= i < n - 1 ==> release_line_ok(#[trigger] lines_of(content@)[i])
            },
    {
        let ghost ls = lines_of(content@);
        let lines = File::parse_into_lines(content);
        for i in 0..lines.len()
            invariant
                views(lines@) == ls,
                ls == lines_of(content@),
                forall|j: int| 0 <= j < i ==> release_line_ok(#[trigger] ls[j]),
        {
            proof {
                assert(lines@[i as int]@ == ls[i as int]);
            }
            match File::check_line(lines[i].as_str(), true) {
                Ok(()) => {},
                Err(f) => {
                    proof {
                        lemma_fault_of(ls[i as int]);
                    }
                    return Err((i + 1, f));
                },
            }
        }
        Ok(())
    }

    /// The release file of the language file `content`, and its number of lines.
    pub fn render(content: String) -> (res: (String, usize))
        requires
            forall|i: int|
                0 <= i < lines_of(content@).len() ==> release_line_ok(#[trigger] lines_of(content@)[i]),
        ensures
            res.0@ == release_text(lines_of(content@)),
            res.1 == release_count(lines_of(content@)),
    {
        let ghost ls = lines_of(content@);
        let lines = File::parse_into_lines(content);
        let w = placeholder_mas(0);
        let mut text = String::new();
        let mut size: usize = 0;
        for i in 0..lines.len()
            invariant
                views(lines@) == ls,
                ls == lines_of(content@),
                forall|j: int| 0 <= j < ls.len() ==> release_line_ok(#[trigger] ls[j]),
                w.word@ == seq!['w'],
                w.sentence@ == seq!['s'],
                text@ == release_text(ls.take(i as int)),
                size == release_count(ls.take(i as int)),
        {
            proof {
                assert(lines@[i as int]@ == ls[i as int]);
                assert(ls.take(i + 1).drop_last() =~= ls.take(i as int));
                assert(ls.take(i + 1).last() == ls[i as int]);
                lemma_release_count_bound(ls.take(i as int));
                reveal_strlit(",");
                reveal_strlit("\n");
            }
            let mas = File::parse_line_release(lines[i].as_str());
            if mas.word != w.word && mas.sentence != w.sentence {
                let mut line = decimal_string(mas.rank);
                line.append(",");
                line.append(mas.word.as_str());
                line.append(",");
                line.append(mas.sentence.as_str());
                line.append("\n");
                assert(line@ =~= release_line(mas@));
                text.append(line.as_str());
                size = size + 1;
            }
        }
        assert(ls.take(lines@.len() as int) =~= ls);
        (text, size)
    }

    /// The report line of a written release file: `folder, name, size`.
    pub fn report_line(folder: &str, name: &str, size: usize) -> (line: String)
        ensures
            line@ == folder@ + seq![',', ' '] + name@ + seq![',', ' '] + decimal(size as nat),
    {
        proof {
            reveal_strlit(", ");
        }
        let mut line = folder.to_owned();
        line.append(", ");
        line.append(name);
        line.append(", ");
        let num = decimal_string(size);
        line.append(num.as_str());
        assert(line@ =~= folder@ + seq![',', ' '] + name@ + seq![',', ' '] + decimal(size as nat));
        line
    }

    /// The report line owed for the release file `text` of `size` lines,
    /// written as `name` for word type `folder`: none where the release is
    /// empty (nothing is written then), else its [`Release::report_line`].
    pub fn report_for(folder: &str, name: &str, text: &String, size: usize) -> (line: Option<String>)
        ensures
            line is None <==> text@.len() == 0,
            line matches Some(l) ==> l@ == folder@ + seq![',', ' '] + name@ + seq![',', ' '] + decimal(
                size as nat,
            ),
    {
        if text.as_str().is_empty() {
            None
        } else {
            Some(Release::report_line(folder, name, size))
        }
    }

    /// The report: its lines, one per line.
    pub fn report(list: &Vec<String>) -> (text: String)
        ensures
            text@ == join(views(list@), seq!['\n']),
    {
        proof {
            reveal_strlit("\n");
        }
        let text = join_strings(list, "\n");
        assert("\n"@ =~= seq!['\n']);
        text
    }

    /// Where the language file `name` of word type `folder` is read from:
    /// `spoken/folder/name`.
    pub fn source_path(folder: &str, name: &str) -> (path: String)
        ensures
            path@ == seq!['s', 'p', 'o', 'k', 'e', 'n', '/'] + folder@ + seq!['/'] + name@,
    {
        proof {
            reveal_strlit("spoken/");
            reveal_strlit("/");
        }
        let mut path = "spoken/".to_owned();
        path.append(folder);
        path.append("/");
        path.append(name);
        assert(path@ =~= seq!['s', 'p', 'o', 'k', 'e', 'n', '/'] + folder@ + seq!['/'] + name@);
        path
    }

    /// The directory of the release files of word type `folder`: `release/folder`.
    pub fn target_dir(folder: &str) -> (path: String)
        ensures
            path@ == seq!['r', 'e', 'l', 'e', 'a', 's', 'e', '/'] + folder@,
    {
        proof {
            reveal_strlit("release/");
        }
        let mut path = "release/".to_owned();
        path.append(folder);
        assert(path@ =~= seq!['r', 'e', 'l', 'e', 'a', 's', 'e', '/'] + folder@);
        path
    }
}

/// Ranking the words: `start` gives each word of the list the position
/// (from 1) of its last occurrence, and only the words of the list get a rank.
pub proof fn law_ranks_are_last_positions(ls: Seq<Seq<char>>)
    requires
        ls.len() <= usize::MAX,
    ensures
        forall|w: Seq<char>| #[trigger] ranks_of(Map::empty(), ls).contains_key(w) <==> ls.contains(w),
        forall|i: int|
            0 <= i < ls.len() ==> {
                let r = ranks_of(Map::empty(), ls)[#[trigger] ls[i]] as int;
                &&& i < r <= ls.len()
                &&& ls[r - 1] == ls[i]
                &&& forall|j: int| r <= j < ls.len() ==> ls[j] != ls[i]
            },
    decreases ls.len(),
{
    if ls.len() > 0 {
        let p = ls.drop_last();
        law_ranks_are_last_positions(p);
        let m = ranks_of(Map::empty(), ls);
        assert(m == ranks_of(Map::empty(), p).insert(ls.last(), ls.len() as usize));
        assert forall|w: Seq<char>| #[trigger] m.contains_key(w) <==> ls.contains(w) by {
            assert(ranks_of(Map::empty(), p).contains_key(w) <==> p.contains(w));
            if p.contains(w) {
                let k = choose|k: int| 0 <= k < p.len() && p[k] == w;
                assert(ls[k] == w);
            }
            if ls.contains(w) && w != ls.last() {
                let k = choose|k: int| 0 <= k < ls.len() && ls[k] == w;
                assert(p[k] == w);
            }
            if w == ls.last() {
                assert(ls[ls.len() - 1] == w);
            }
        }
        assert forall|i: int| 0 <= i < ls.len() implies {
            let r = m[#[trigger] ls[i]] as int;
            &&& i < r <= ls.len()
            &&& ls[r - 1] == ls[i]
            &&& forall|j: int| r <= j < ls.len() ==> ls[j] != ls[i]
        } by {
            if ls[i] != ls.last() {
                assert(p[i] == ls[i]);
                let r = ranks_of(Map::empty(), p)[p[i]] as int;
                assert(ls[r - 1] == p[r - 1]);
                assert forall|j: int| r <= j < ls.len() implies ls[j] != ls[i] by {
                    if j < p.len() {
                        assert(p[j] == ls[j]);
                    }
                }
            }
        }
    }
}

/// Synchronisation keeps every rank: after it, the English file holds
/// exactly the ranks 1 to `n`, and every other file at least those.
pub proof fn law_synced_ranks(
    es: Seq<(usize, MasView)>,
    store: Map<Seq<char>, usize>,
    list: Seq<Seq<char>>,
    l: Map<usize, MasView>,
    cs: Seq<Change>,
    n: int,
)
    ensures
        forall|r: usize| #[trigger] english_synced(es, store, list, n).contains_key(r) <==> 1 <= r <= n,
        forall|r: usize| 1 <= r <= n ==> #[trigger] synced(l, cs, n).contains_key(r),
{
}

/// After synchronisation the English file holds, under each rank that a
/// vocabulary word owns, that word; the sentence is the one of the English
/// line whose word moved there, if any.
pub proof fn law_english_words_follow_vocabulary(
    es: Seq<(usize, MasView)>,
    store: Map<Seq<char>, usize>,
    list: Seq<Seq<char>>,
    n: int,
    r: usize,
)
    requires
        1 <= r <= n,
    ensures
        owner(list, store, r) matches Some(w) ==> english_synced(es, store, list, n)[r].word == w,
        english_synced(es, store, list, n)[r].sentence == moved_english(es, store, r).sentence,
{
}

/// After ranking and synchronisation, every vocabulary word whose rank is
/// within the file stands in the English file under that rank.
pub proof fn law_vocabulary_words_in_english(ls: Seq<Seq<char>>, es: Seq<(usize, MasView)>, n: int, i: int)
    requires
        ls.len() <= usize::MAX,
        0 <= i < ls.len(),
        ranks_of(Map::empty(), ls)[ls[i]] <= n,
    ensures
        english_synced(es, ranks_of(Map::empty(), ls), ls, n)[ranks_of(Map::empty(), ls)[ls[i]]].word
            == ls[i],
{
    law_ranks_are_last_positions(ls);
    let store = ranks_of(Map::empty(), ls);
    let r = store[ls[i]];
    assert(ls.contains(ls[i]));
    assert(store.contains_key(ls[i]));
    assert(ls[r - 1] == ls[i]);
    assert(owner(ls, store, r) == Some(ls[i]));
}

/// The lines written for a language file come in ascending rank order.
pub proof fn law_written_in_rank_order(data: RankMap, keys: Set<usize>)
    requires
        data.wf(),
    ensures
        forall|i: int, j: int|
            0 <= i < j < with_keys(data.seq(), keys).len() ==> (#[trigger] with_keys(data.seq(), keys)[i]).0
                < (#[trigger] with_keys(data.seq(), keys)[j]).0,
{
    data.lemma_sorted();
    lemma_with_keys_sorted(data.seq(), keys);
}

pub proof fn lemma_with_keys_sorted(es: Seq<(usize, MasView)>, keys: Set<usize>)
    requires
        forall|i: int, j: int| 0 <= i < j < es.len() ==> (#[trigger] es[i]).0 < (#[trigger] es[j]).0,
    ensures
        forall|i: int, j: int|
            0 <= i < j < with_keys(es, keys).len() ==> (#[trigger] with_keys(es, keys)[i]).0 < (
            #[trigger] with_keys(es, keys)[j]).0,
        forall|i: int|
            0 <= i < with_keys(es, keys).len() ==> exists|k: int|
                0 <= k < es.len() && #[trigger] with_keys(es, keys)[i] == es[k],
    decreases es.len(),
{
    if es.len() > 0 {
        let p = es.drop_last();
        assert forall|i: int, j: int| 0 <= i < j < p.len() implies (#[trigger] p[i]).0 < (
        #[trigger] p[j]).0 by {
            assert(p[i] == es[i] && p[j] == es[j]);
        }
        lemma_with_keys_sorted(p, keys);
        let wp = with_keys(p, keys);
        let w = with_keys(es, keys);
        assert forall|i: int| 0 <= i < w.len() implies exists|k: int|
            0 <= k < es.len() && #[trigger] w[i] == es[k] by {
            if i < wp.len() {
                let k = choose|k: int| 0 <= k < p.len() && wp[i] == p[k];
                assert(w[i] == wp[i]);
                assert(es[k] == p[k]);
            } else {
                assert(w[i] == es[es.len() - 1]);
            }
        }
        assert forall|i: int, j: int| 0 <= i < j < w.len() implies (#[trigger] w[i]).0 < (
        #[trigger] w[j]).0 by {
            if j < wp.len() {
                assert(w[i] == wp[i] && w[j] == wp[j]);
            } else {
                assert(w[i] == wp[i]);
                let k = choose|k: int| 0 <= k < p.len() && wp[i] == p[k];
                assert(w[j] == es.last());
                assert(es[k] == p[k]);
                assert(es[k].0 < es[es.len() - 1].0);
            }
        }
    }
}

} // verus!
