//! The vocabulary: configuration lists, and the words of each vocabulary
//! file grouped by word type and by folder.
//!
//! Paths are held as strings; files are read by the caller, who hands their
//! contents in as [`ReadParseFile`] values.

use vstd::prelude::*;
use vstd::multiset::Multiset;
use crate::text::{
    chars_of, str_eq, ranges_match, split_char, split_ranges, string_of, strings_of_ranges,
    trim, trim_range, views, ws_ranges, ws_split,
};

verus! {

/// `name` appended to the path `dir`, as `Path::join` does on Unix: an
/// absolute `name` replaces `dir`; otherwise a `/` separates them unless
/// `dir` is empty or already ends with one.
pub open spec fn joined(dir: Seq<char>, name: Seq<char>) -> Seq<char> {
    if name.len() > 0 && name[0] == '/' {
        name
    } else if dir.len() == 0 || dir.last() == '/' {
        dir + name
    } else {
        dir + seq!['/'] + name
    }
}

/// The path `dir` joined with `name`.
pub fn join_path(dir: &str, name: &str) -> (res: String)
    ensures
        res@ == joined(dir@, name@),
{
    proof {
        reveal_strlit("/");
    }
    let n = chars_of(name);
    if n.len() > 0 && n[0] == '/' {
        return name.to_owned();
    }
    let d = chars_of(dir);
    let mut res = dir.to_owned();
    if d.len() > 0 && d[d.len() - 1] != '/' {
        res.append("/");
    }
    res.append(name);
    assert(res@ =~= joined(dir@, name@));
    res
}

/// `name` followed by `.` and `ext`.
pub fn dotted(name: &str, ext: &str) -> (res: String)
    ensures
        res@ == name@ + seq!['.'] + ext@,
{
    proof {
        reveal_strlit(".");
    }
    let mut res = name.to_owned();
    res.append(".");
    res.append(ext);
    assert(res@ =~= name@ + seq!['.'] + ext@);
    res
}

/// One word of a vocabulary file: its line, the word, the file's type and
/// the folder.
#[derive(Debug)]
pub struct Mas {
    pub line: usize,
    pub word: String,
    pub tipo: String,
    pub folder: String,
}

/// The value of a [`Mas`].
pub struct MasView {
    pub line: usize,
    pub word: Seq<char>,
    pub tipo: Seq<char>,
    pub folder: Seq<char>,
}

impl View for Mas {
    type V = MasView;

    open spec fn view(&self) -> MasView {
        MasView { line: self.line, word: self.word@, tipo: self.tipo@, folder: self.folder@ }
    }
}

impl Clone for Mas {
    fn clone(&self) -> (res: Self)
        ensures
            res@ == self@,
    {
        Mas {
            line: self.line,
            word: self.word.clone(),
            tipo: self.tipo.clone(),
            folder: self.folder.clone(),
        }
    }
}

impl Mas {
    pub fn new() -> (m: Mas)
        ensures
            m@ == (MasView { line: 0, word: seq![], tipo: seq![], folder: seq![] }),
    {
        Mas { line: 0, word: String::new(), tipo: String::new(), folder: String::new() }
    }

    /// This word, placed in the folder `folder` and the type `tipo`.
    pub fn setup(self, folder: &String, tipo: &String) -> (m: Mas)
        ensures
            m@ == (MasView { folder: folder@, tipo: tipo@, ..self@ }),
    {
        let mut m = self;
        m.folder = folder.clone();
        m.tipo = tipo.clone();
        m
    }
}

/// The words of a vocabulary file with lines `pieces`: for each line whose
/// trimmed text is not empty, the template `m` with that text as its word
/// and the line's position (from 1) as its line.
pub open spec fn mas_lines(pieces: Seq<Seq<char>>, m: MasView) -> Seq<MasView>
    decreases pieces.len(),
{
    if pieces.len() == 0 {
        seq![]
    } else {
        let prev = mas_lines(pieces.drop_last(), m);
        let w = trim(pieces.last());
        if w.len() > 0 {
            prev.push(MasView { line: pieces.len() as usize, word: w, ..m })
        } else {
            prev
        }
    }
}

/// The words of the vocabulary file `content`, one per non-blank line.
pub open spec fn split_mas_spec(content: Seq<char>, m: MasView) -> Seq<MasView> {
    mas_lines(split_char(content, '\n'), m)
}

/// Views of a sequence of words.
pub open spec fn mas_views(ms: Seq<Mas>) -> Seq<MasView> {
    ms.map_values(|m: Mas| m@)
}

/// The content of a file that has been read.
pub struct ReadParseFile {
    pub content: String,
}

impl ReadParseFile {
    /// One word per non-blank line of the content, each a copy of `mas`
    /// with the trimmed line as its word and the line number (from 1).
    pub fn split_mas(self, mas: Mas) -> (res: Vec<Mas>)
        ensures
            mas_views(res@) == split_mas_spec(self.content@, mas@),
    {
        let v = chars_of(self.content.as_str());
        let rs = split_ranges(&v, 0, v.len(), '\n');
        let ghost pieces = split_char(self.content@, '\n');
        assert(v@.subrange(0, v@.len() as int) =~= self.content@);
        let mut res: Vec<Mas> = Vec::new();
        for i in 0..rs.len()
            invariant
                v@ == self.content@,
                pieces == split_char(self.content@, '\n'),
                ranges_match(v@, rs@, pieces, 0, v@.len() as int),
                mas_views(res@) == mas_lines(pieces.take(i as int), mas@),
        {
            let r = rs[i];
            let t = trim_range(&v, r.0, r.1);
            proof {
                assert(pieces.take(i + 1).drop_last() =~= pieces.take(i as int));
                assert(pieces.take(i + 1).last() == pieces[i as int]);
            }
            if t.0 < t.1 {
                let mut new_mas = mas.clone();
                new_mas.line = i + 1;
                new_mas.word = string_of(&v, t.0, t.1);
                res.push(new_mas);
            }
            assert(mas_views(res@) =~= mas_lines(pieces.take(i + 1), mas@));
        }
        assert(pieces.take(rs@.len() as int) =~= pieces);
        res
    }

    /// The whitespace-separated words of the content.
    pub fn split_whitespace(&self) -> (res: Vec<String>)
        ensures
            views(res@) == ws_split(self.content@),
    {
        let v = chars_of(self.content.as_str());
        let rs = ws_ranges(&v, 0, v.len());
        assert(v@.subrange(0, v@.len() as int) =~= self.content@);
        let res = strings_of_ranges(&v, &rs);
        assert(views(res@) =~= ws_split(self.content@));
        res
    }
}

/// The name of a vocabulary file, its extension, full name and path.
#[derive(Debug)]
pub struct File {
    pub ext: String,
    pub name: String,
    pub full_name: String,
    pub path: String,
}

/// The value of a [`File`].
pub struct FileView {
    pub ext: Seq<char>,
    pub name: Seq<char>,
    pub full_name: Seq<char>,
    pub path: Seq<char>,
}

impl View for File {
    type V = FileView;

    open spec fn view(&self) -> FileView {
        FileView { ext: self.ext@, name: self.name@, full_name: self.full_name@, path: self.path@ }
    }
}

/// The extension of vocabulary and language files.
pub open spec fn on_ext() -> Seq<char> {
    seq!['o', 'n']
}

/// The vocabulary file of type `name` in the folder `dir`: `name.on`.
pub open spec fn file_in(dir: Seq<char>, name: Seq<char>) -> FileView {
    FileView {
        ext: on_ext(),
        name: name,
        full_name: name + seq!['.'] + on_ext(),
        path: joined(dir, name + seq!['.'] + on_ext()),
    }
}

impl File {
    pub fn new() -> (f: File)
        ensures
            f@ == (FileView { ext: seq![], name: seq![], full_name: seq![], path: seq![] }),
    {
        File { ext: String::new(), name: String::new(), full_name: String::new(), path: String::new() }
    }

    /// The file of type `name` in the folder of `carrier`.
    pub fn setup(self, name: &String, carrier: &Carrier) -> (f: File)
        ensures
            f@ == file_in(carrier.dir@, name@),
    {
        proof {
            reveal_strlit("on");
        }
        let mut f = self;
        f.name = name.clone();
        f.ext = "on".to_owned();
        assert(f.ext@ =~= on_ext());
        f.full_name = dotted(f.name.as_str(), f.ext.as_str());
        f.path = join_path(carrier.dir.as_str(), f.full_name.as_str());
        f
    }
}

/// A vocabulary folder and the files of each type in it.
#[derive(Debug)]
pub struct Carrier {
    pub dir: String,
    pub folder: String,
    pub paths: Vec<File>,
}

/// Views of a sequence of files.
pub open spec fn file_views(fs: Seq<File>) -> Seq<FileView> {
    fs.map_values(|f: File| f@)
}

/// The files of the types `types` in the folder `dir`.
pub open spec fn files_in(dir: Seq<char>, types: Seq<Seq<char>>) -> Seq<FileView> {
    Seq::new(types.len(), |i: int| file_in(dir, types[i]))
}

impl Carrier {
    pub fn new() -> (c: Carrier)
        ensures
            c.dir@ == Seq::<char>::empty(),
            c.folder@ == Seq::<char>::empty(),
            c.paths@.len() == 0,
    {
        Carrier { dir: String::new(), folder: String::new(), paths: Vec::new() }
    }

    /// One file per type of `types`, in this carrier's folder.
    pub fn get_data_paths(&self, types: &Vec<String>) -> (acc: Vec<File>)
        ensures
            file_views(acc@) == files_in(self.dir@, views(types@)),
    {
        let mut acc: Vec<File> = Vec::new();
        for i in 0..types.len()
            invariant
                acc@.len() == i,
                file_views(acc@) == files_in(self.dir@, views(types@)).take(i as int),
        {
            acc.push(File::new().setup(&types[i], self));
            assert(file_views(acc@) =~= files_in(self.dir@, views(types@)).take(i + 1));
        }
        assert(files_in(self.dir@, views(types@)).take(types@.len() as int) =~= files_in(
            self.dir@,
            views(types@),
        ));
        acc
    }

    /// The carrier of the vocabulary folder `folder`, with one file per type.
    pub fn setup(self, voc: &Vocabulary, types: &Vec<String>, folder: &String) -> (c: Carrier)
        ensures
            c.folder@ == folder@,
            c.dir@ == joined(voc.dir@, folder@),
            file_views(c.paths@) == files_in(c.dir@, views(types@)),
    {
        let mut c = self;
        c.folder = folder.clone();
        c.dir = join_path(voc.dir.as_str(), folder.as_str());
        c.paths = c.get_data_paths(types);
        c
    }
}

/// The configuration list of folders: `config/folders.on`.
#[derive(Debug)]
pub struct Folders {
    pub name: String,
    pub file_name: String,
    pub file_path: String,
    pub list: Vec<String>,
}

/// The configuration list of word types: `config/types.on`.
#[derive(Debug)]
pub struct Types {
    pub name: String,
    pub file_name: String,
    pub file_path: String,
    pub list: Vec<String>,
}

/// The configuration: its directory and its two lists.
#[derive(Debug)]
pub struct Config {
    pub dir: String,
    pub folders: Folders,
    pub types: Types,
}

impl Folders {
    pub fn new() -> (f: Folders)
        ensures
            f.name@ == Seq::<char>::empty(),
            f.file_name@ == Seq::<char>::empty(),
            f.file_path@ == Seq::<char>::empty(),
            f.list@.len() == 0,
    {
        Folders { name: String::new(), file_name: String::new(), file_path: String::new(), list: Vec::new() }
    }

    /// Names and locates the list in the configuration directory; the list
    /// itself is read from `file_path` and handed to [`Folders::readparse`].
    pub fn setup(self, config: &Config) -> (f: Folders)
        ensures
            f.name@ == seq!['f', 'o', 'l', 'd', 'e', 'r', 's'],
            f.file_name@ == f.name@ + seq!['.'] + on_ext(),
            f.file_path@ == joined(config.dir@, f.file_name@),
            f.list == self.list,
    {
        proof {
            reveal_strlit("folders");
            reveal_strlit("on");
        }
        let mut f = self;
        f.name = "folders".to_owned();
        f.file_name = dotted(f.name.as_str(), "on");
        f.file_path = join_path(config.dir.as_str(), f.file_name.as_str());
        assert(f.name@ =~= seq!['f', 'o', 'l', 'd', 'e', 'r', 's']);
        assert("on"@ =~= on_ext());
        f
    }

    /// The folders named in `file`, the content read from `file_path`.
    pub fn readparse(&self, file: &ReadParseFile) -> (list: Vec<String>)
        ensures
            views(list@) == ws_split(file.content@),
    {
        file.split_whitespace()
    }
}

impl Types {
    pub fn new() -> (t: Types)
        ensures
            t.name@ == Seq::<char>::empty(),
            t.file_name@ == Seq::<char>::empty(),
            t.file_path@ == Seq::<char>::empty(),
            t.list@.len() == 0,
    {
        Types { name: String::new(), file_name: String::new(), file_path: String::new(), list: Vec::new() }
    }

    /// Names and locates the list in the configuration directory; the list
    /// itself is read from `file_path` (see [`Config::fill`]).
    pub fn setup(self, config: &Config) -> (t: Types)
        ensures
            t.name@ == seq!['t', 'y', 'p', 'e', 's'],
            t.file_name@ == t.name@ + seq!['.'] + on_ext(),
            t.file_path@ == joined(config.dir@, t.file_name@),
            t.list == self.list,
    {
        proof {
            reveal_strlit("types");
            reveal_strlit("on");
        }
        let mut t = self;
        t.name = "types".to_owned();
        t.file_name = dotted(t.name.as_str(), "on");
        t.file_path = join_path(config.dir.as_str(), t.file_name.as_str());
        assert(t.name@ =~= seq!['t', 'y', 'p', 'e', 's']);
        assert("on"@ =~= on_ext());
        t
    }
}

impl Config {
    pub fn new() -> (c: Config)
        ensures
            c.dir@ == Seq::<char>::empty(),
            c.folders.name@ == Seq::<char>::empty(),
            c.folders.file_name@ == Seq::<char>::empty(),
            c.folders.file_path@ == Seq::<char>::empty(),
            c.folders.list@.len() == 0,
            c.types.name@ == Seq::<char>::empty(),
            c.types.file_name@ == Seq::<char>::empty(),
            c.types.file_path@ == Seq::<char>::empty(),
            c.types.list@.len() == 0,
    {
        Config { dir: String::new(), folders: Folders::new(), types: Types::new() }
    }

    /// Places the configuration in `config` under the sphere's directory and
    /// locates its two lists.
    pub fn setup(self, sphere: &Sphere) -> (c: Config)
        ensures
            c.dir@ == joined(sphere.current_dir@, seq!['c', 'o', 'n', 'f', 'i', 'g']),
            c.folders.name@ == seq!['f', 'o', 'l', 'd', 'e', 'r', 's'],
            c.folders.file_name@ == seq!['f', 'o', 'l', 'd', 'e', 'r', 's', '.', 'o', 'n'],
            c.folders.file_path@ == joined(c.dir@, c.folders.file_name@),
            c.types.name@ == seq!['t', 'y', 'p', 'e', 's'],
            c.types.file_name@ == seq!['t', 'y', 'p', 'e', 's', '.', 'o', 'n'],
            c.types.file_path@ == joined(c.dir@, c.types.file_name@),
            c.folders.list == self.folders.list,
            c.types.list == self.types.list,
    {
        proof {
            reveal_strlit("config");
        }
        let Config { dir: _, folders, types } = self;
        let dir = join_path(sphere.current_dir.as_str(), "config");
        assert("config"@ =~= seq!['c', 'o', 'n', 'f', 'i', 'g']);
        let mut c = Config { dir, folders: Folders::new(), types: Types::new() };
        let f = folders.setup(&c);
        let t = types.setup(&c);
        assert(f.file_name@ =~= seq!['f', 'o', 'l', 'd', 'e', 'r', 's', '.', 'o', 'n']);
        assert(t.file_name@ =~= seq!['t', 'y', 'p', 'e', 's', '.', 'o', 'n']);
        c.folders = f;
        c.types = t;
        c
    }

    /// Fills the two lists from their files, read from their `file_path`.
    pub fn fill(self, folders_file: &ReadParseFile, types_file: &ReadParseFile) -> (c: Config)
        ensures
            views(c.folders.list@) == ws_split(folders_file.content@),
            views(c.types.list@) == ws_split(types_file.content@),
            c.dir == self.dir,
            c.folders.name == self.folders.name,
            c.folders.file_name == self.folders.file_name,
            c.folders.file_path == self.folders.file_path,
            c.types.name == self.types.name,
            c.types.file_name == self.types.file_name,
            c.types.file_path == self.types.file_path,
    {
        let mut c = self;
        c.folders.list = c.folders.readparse(folders_file);
        c.types.list = types_file.split_whitespace();
        c
    }
}

/// Groups of words as `(key, words)` pairs; the keys are distinct.
pub type GroupsView = Seq<(Seq<char>, Seq<MasView>)>;

/// The position of the group with key `k`, if any.
pub open spec fn gfind(g: GroupsView, k: Seq<char>) -> Option<int> {
    if exists|i: int| 0 <= i < g.len() && (#[trigger] g[i]).0 == k {
        Some(choose|i: int| 0 <= i < g.len() && (#[trigger] g[i]).0 == k)
    } else {
        None
    }
}

/// `items` appended to the group with key `k`, which is added at the end
/// if there is none yet.
pub open spec fn gadd(g: GroupsView, k: Seq<char>, items: Seq<MasView>) -> GroupsView {
    match gfind(g, k) {
        Some(i) => g.update(i, (k, g[i].1 + items)),
        None => g.push((k, items)),
    }
}

/// The keys of `g` are distinct.
pub open spec fn distinct_keys(g: GroupsView) -> bool {
    forall|i: int, j: int| 0 <= i < j < g.len() ==> (#[trigger] g[i]).0 != (#[trigger] g[j]).0
}

/// The words of all groups, group after group.
pub open spec fn flatten(g: GroupsView) -> Seq<MasView>
    decreases g.len(),
{
    if g.len() == 0 {
        seq![]
    } else {
        flatten(g.drop_last()) + g.last().1
    }
}

/// Words grouped by key, in the order in which the keys first came.
#[derive(Debug)]
pub struct MasGroups {
    groups: Vec<(String, Vec<Mas>)>,
}

proof fn lemma_gadd_distinct(g: GroupsView, k: Seq<char>, items: Seq<MasView>)
    requires
        distinct_keys(g),
    ensures
        distinct_keys(gadd(g, k, items)),
{
    let h = gadd(g, k, items);
    assert forall|i: int, j: int| 0 <= i < j < h.len() implies (#[trigger] h[i]).0 != (
    #[trigger] h[j]).0 by {
        match gfind(g, k) {
            Some(p) => {
                assert(h[i].0 == g[i].0 && h[j].0 == g[j].0);
            },
            None => {
                if j < g.len() {
                    assert(h[i] == g[i] && h[j] == g[j]);
                } else {
                    assert(h[i] == g[i]);
                }
            },
        }
    }
}

/// Clones of the words `ms`.
pub fn clone_mases(ms: &Vec<Mas>) -> (res: Vec<Mas>)
    ensures
        mas_views(res@) == mas_views(ms@),
{
    let mut res: Vec<Mas> = Vec::new();
    for i in 0..ms.len()
        invariant
            res@.len() == i,
            mas_views(res@) == mas_views(ms@).take(i as int),
    {
        let c = ms[i].clone();
        assert(c@ == ms@[i as int]@);
        let ghost r0 = res@;
        res.push(c);
        assert(res@ == r0.push(c));
        assert(mas_views(res@).len() == i + 1);
        assert(mas_views(res@)[i as int] == c@);
        assert(mas_views(ms@)[i as int] == ms@[i as int]@);
        assert(mas_views(res@) =~= mas_views(ms@).take(i + 1));
    }
    assert(mas_views(ms@).take(ms@.len() as int) =~= mas_views(ms@));
    res
}

impl MasGroups {
    /// The groups by value.
    pub closed spec fn groups_view(self) -> GroupsView {
        self.groups@.map_values(|g: (String, Vec<Mas>)| (g.0@, mas_views(g.1@)))
    }

    pub fn new() -> (m: MasGroups)
        ensures
            m@ == Seq::<(Seq<char>, Seq<MasView>)>::empty(),
            distinct_keys(m@),
    {
        let m = MasGroups { groups: Vec::new() };
        assert(m@ =~= Seq::<(Seq<char>, Seq<MasView>)>::empty());
        m
    }

    /// Number of groups.
    pub fn len(&self) -> (n: usize)
        ensures
            n == self@.len(),
    {
        self.groups.len()
    }

    /// The group at position `i`.
    pub fn group(&self, i: usize) -> (g: (&String, &Vec<Mas>))
        requires
            i < self@.len(),
        ensures
            g.0@ == self@[i as int].0,
            mas_views(g.1@) == self@[i as int].1,
    {
        (&self.groups[i].0, &self.groups[i].1)
    }

    /// Position of the group with key `key`.
    fn find(&self, key: &str) -> (p: Option<usize>)
        requires
            distinct_keys(self@),
        ensures
            match p {
                Some(i) => gfind(self@, key@) == Some(i as int) && i < self@.len(),
                None => gfind(self@, key@) is None,
            },
    {
        for i in 0..self.groups.len()
            invariant
                distinct_keys(self@),
                forall|k: int| 0 <= k < i ==> (#[trigger] self@[k]).0 != key@,
        {
            if str_eq(self.groups[i].0.as_str(), key) {
                proof {
                    assert(self@[i as int].0 == key@);
                    let c = choose|c: int| 0 <= c < self@.len() && (#[trigger] self@[c]).0 == key@;
                    if c != i {
                        if c < i {
                            assert(self@[c].0 != self@[i as int].0);
                        } else {
                            assert(self@[i as int].0 != self@[c].0);
                        }
                    }
                }
                return Some(i);
            }
        }
        None
    }

    /// The words of the group with key `key`, if any.
    pub fn get(&self, key: &str) -> (r: Option<&Vec<Mas>>)
        requires
            distinct_keys(self@),
        ensures
            match r {
                Some(ms) => gfind(self@, key@) is Some && mas_views(ms@) == self@[gfind(self@, key@)->0].1,
                None => gfind(self@, key@) is None,
            },
    {
        match self.find(key) {
            Some(i) => Some(&self.groups[i].1),
            None => None,
        }
    }

    /// Appends `items` to the group with key `key`, adding the group last
    /// if there is none yet.
    pub fn add(&mut self, key: &String, items: Vec<Mas>)
        requires
            distinct_keys(old(self)@),
        ensures
            final(self)@ == gadd(old(self)@, key@, mas_views(items@)),
            distinct_keys(final(self)@),
    {
        proof {
            lemma_gadd_distinct(self@, key@, mas_views(items@));
        }
        let ghost g0 = self@;
        match self.find(key.as_str()) {
            Some(i) => {
                let ghost items_v = mas_views(items@);
                let (k, mut ms) = self.groups.remove(i);
                let mut items = items;
                ms.append(&mut items);
                self.groups.insert(i, (k, ms));
                proof {
                    assert(mas_views(ms@) =~= g0[i as int].1 + items_v);
                    assert(self@ =~= gadd(g0, key@, items_v));
                }
            },
            None => {
                self.groups.push((key.clone(), items));
                assert(self@ =~= gadd(g0, key@, mas_views(items@)));
            },
        }
    }
}

impl View for MasGroups {
    type V = GroupsView;

    closed spec fn view(&self) -> GroupsView {
        self.groups_view()
    }
}

/// Word groups by folder, each folder's words grouped by type.
pub type LayoutView = Seq<(Seq<char>, GroupsView)>;

/// The position of folder `f`, if any.
pub open spec fn lfind(l: LayoutView, f: Seq<char>) -> Option<int> {
    if exists|i: int| 0 <= i < l.len() && (#[trigger] l[i]).0 == f {
        Some(choose|i: int| 0 <= i < l.len() && (#[trigger] l[i]).0 == f)
    } else {
        None
    }
}

/// `l` with folder `f` added last, empty, if it is not there yet.
pub open spec fn ltouch(l: LayoutView, f: Seq<char>) -> LayoutView {
    match lfind(l, f) {
        Some(_) => l,
        None => l.push((f, seq![])),
    }
}

/// `items` appended to type `t` of folder `f`, adding either if missing.
pub open spec fn ladd(l: LayoutView, f: Seq<char>, t: Seq<char>, items: Seq<MasView>) -> LayoutView {
    match lfind(l, f) {
        Some(i) => l.update(i, (f, gadd(l[i].1, t, items))),
        None => l.push((f, gadd(seq![], t, items))),
    }
}

/// Folder keys are distinct, and type keys within each folder.
pub open spec fn layout_wf(l: LayoutView) -> bool {
    &&& forall|i: int, j: int| 0 <= i < j < l.len() ==> (#[trigger] l[i]).0 != (#[trigger] l[j]).0
    &&& forall|i: int| 0 <= i < l.len() ==> distinct_keys((#[trigger] l[i]).1)
}

/// Words by folder and by type, in the order in which the keys first came.
#[derive(Debug)]
pub struct Layout {
    folders: Vec<(String, MasGroups)>,
}

impl View for Layout {
    type V = LayoutView;

    closed spec fn view(&self) -> LayoutView {
        self.folders@.map_values(|e: (String, MasGroups)| (e.0@, e.1@))
    }
}

impl Layout {
    pub fn new() -> (l: Layout)
        ensures
            l@ == Seq::<(Seq<char>, GroupsView)>::empty(),
    {
        let l = Layout { folders: Vec::new() };
        assert(l@ =~= Seq::<(Seq<char>, GroupsView)>::empty());
        l
    }

    /// Number of folders.
    pub fn len(&self) -> (n: usize)
        ensures
            n == self@.len(),
    {
        self.folders.len()
    }

    /// The folder at position `i` and its groups.
    pub fn folder(&self, i: usize) -> (e: (&String, &MasGroups))
        requires
            i < self@.len(),
        ensures
            e.0@ == self@[i as int].0,
            e.1@ == self@[i as int].1,
    {
        (&self.folders[i].0, &self.folders[i].1)
    }

    fn find(&self, f: &str) -> (p: Option<usize>)
        requires
            layout_wf(self@),
        ensures
            match p {
                Some(i) => lfind(self@, f@) == Some(i as int) && i < self@.len(),
                None => lfind(self@, f@) is None,
            },
    {
        for i in 0..self.folders.len()
            invariant
                layout_wf(self@),
                forall|k: int| 0 <= k < i ==> (#[trigger] self@[k]).0 != f@,
        {
            if str_eq(self.folders[i].0.as_str(), f) {
                proof {
                    assert(self@[i as int].0 == f@);
                    let c = choose|c: int| 0 <= c < self@.len() && (#[trigger] self@[c]).0 == f@;
                    if c != i {
                        if c < i {
                            assert(self@[c].0 != self@[i as int].0);
                        } else {
                            assert(self@[i as int].0 != self@[c].0);
                        }
                    }
                }
                return Some(i);
            }
        }
        None
    }

    /// Adds folder `f`, empty, if it is not there yet.
    pub fn touch(&mut self, f: &String)
        requires
            layout_wf(old(self)@),
        ensures
            final(self)@ == ltouch(old(self)@, f@),
            layout_wf(final(self)@),
    {
        match self.find(f.as_str()) {
            Some(_) => {},
            None => {
                let g = MasGroups::new();
                self.folders.push((f.clone(), g));
                assert(self@ =~= ltouch(old(self)@, f@));
                assert forall|i: int, j: int| 0 <= i < j < self@.len() implies (#[trigger] self@[i]).0
                    != (#[trigger] self@[j]).0 by {
                    if j == self@.len() - 1 {
                        assert(self@[i] == old(self)@[i]);
                    }
                }
            },
        }
    }

    /// Appends `items` to type `t` of folder `f`, adding either if missing.
    pub fn add(&mut self, f: &String, t: &String, items: Vec<Mas>)
        requires
            layout_wf(old(self)@),
        ensures
            final(self)@ == ladd(old(self)@, f@, t@, mas_views(items@)),
            layout_wf(final(self)@),
    {
        let ghost l0 = self@;
        let ghost iv = mas_views(items@);
        match self.find(f.as_str()) {
            Some(i) => {
                let (k, mut g) = self.folders.remove(i);
                assert(distinct_keys(g@)) by {
                    assert(l0[i as int].1 == g@);
                }
                g.add(t, items);
                self.folders.insert(i, (k, g));
                proof {
                    assert(self@ =~= ladd(l0, f@, t@, iv));
                    assert forall|a: int, b: int| 0 <= a < b < self@.len() implies (
                    #[trigger] self@[a]).0 != (#[trigger] self@[b]).0 by {
                        assert(self@[a].0 == l0[a].0 && self@[b].0 == l0[b].0);
                    }
                    assert forall|a: int| 0 <= a < self@.len() implies distinct_keys(
                        (#[trigger] self@[a]).1,
                    ) by {
                        if a != i {
                            assert(self@[a] == l0[a]);
                        }
                    }
                }
            },
            None => {
                let mut g = MasGroups::new();
                g.add(t, items);
                self.folders.push((f.clone(), g));
                proof {
                    assert(self@ =~= ladd(l0, f@, t@, iv));
                    assert forall|a: int, b: int| 0 <= a < b < self@.len() implies (
                    #[trigger] self@[a]).0 != (#[trigger] self@[b]).0 by {
                        if b == self@.len() - 1 {
                            assert(self@[a] == l0[a]);
                        }
                    }
                    assert forall|a: int| 0 <= a < self@.len() implies distinct_keys(
                        (#[trigger] self@[a]).1,
                    ) by {
                        if a < l0.len() {
                            assert(self@[a] == l0[a]);
                        }
                    }
                }
            },
        }
    }
}

/// A carrier by value: its folder and files.
pub open spec fn carrier_view(c: Carrier) -> (Seq<char>, Seq<FileView>) {
    (c.folder@, file_views(c.paths@))
}

/// Carriers by value.
pub open spec fn carrier_views(cs: Seq<Carrier>) -> Seq<(Seq<char>, Seq<FileView>)> {
    cs.map_values(|c: Carrier| carrier_view(c))
}

/// The contents of read files, row by row.
pub open spec fn contents_view(rows: Seq<Vec<ReadParseFile>>) -> Seq<Seq<Seq<char>>> {
    rows.map_values(|row: Vec<ReadParseFile>| row@.map_values(|f: ReadParseFile| f.content@))
}

/// The template word of file `f` in folder `folder`.
pub open spec fn template(folder: Seq<char>, f: FileView) -> MasView {
    MasView { line: 0, word: seq![], tipo: f.name, folder: folder }
}

/// The words that file `f` of folder `folder` holds.
pub open spec fn block(folder: Seq<char>, f: FileView, content: Seq<char>) -> Seq<MasView> {
    split_mas_spec(content, template(folder, f))
}

/// Type groups after the files `files` of folder `folder`, starting from `g`:
/// each file with words appends them to the group of its type.
pub open spec fn data_files(g: GroupsView, folder: Seq<char>, files: Seq<FileView>, conts: Seq<Seq<char>>) -> GroupsView
    decreases files.len(),
{
    if files.len() == 0 {
        g
    } else {
        let prev = data_files(g, folder, files.drop_last(), conts);
        let b = block(folder, files.last(), conts[files.len() - 1]);
        if b.len() > 0 {
            gadd(prev, files.last().name, b)
        } else {
            prev
        }
    }
}

/// Type groups after all files of the carriers `cs`.
pub open spec fn data_carriers(cs: Seq<(Seq<char>, Seq<FileView>)>, contents: Seq<Seq<Seq<char>>>) -> GroupsView
    decreases cs.len(),
{
    if cs.len() == 0 {
        seq![]
    } else {
        data_files(data_carriers(cs.drop_last(), contents), cs.last().0, cs.last().1, contents[cs.len() - 1])
    }
}

/// Folder layout after the files `files` of folder `folder`, starting from `l`:
/// each file's type gets a group in the folder, with the file's words.
pub open spec fn layout_files(l: LayoutView, folder: Seq<char>, files: Seq<FileView>, conts: Seq<Seq<char>>) -> LayoutView
    decreases files.len(),
{
    if files.len() == 0 {
        l
    } else {
        ladd(
            layout_files(l, folder, files.drop_last(), conts),
            folder,
            files.last().name,
            block(folder, files.last(), conts[files.len() - 1]),
        )
    }
}

/// Folder layout after all carriers `cs`: each folder gets an entry.
pub open spec fn layout_carriers(cs: Seq<(Seq<char>, Seq<FileView>)>, contents: Seq<Seq<Seq<char>>>) -> LayoutView
    decreases cs.len(),
{
    if cs.len() == 0 {
        seq![]
    } else {
        layout_files(
            ltouch(layout_carriers(cs.drop_last(), contents), cs.last().0),
            cs.last().0,
            cs.last().1,
            contents[cs.len() - 1],
        )
    }
}

/// The vocabulary: its directory, carriers and words.
#[derive(Debug)]
pub struct Vocabulary {
    pub name: String,
    pub dir: String,
    pub carrier: Vec<Carrier>,
    /// Words by type.
    pub data: MasGroups,
    /// All words, type after type.
    pub data_all: Vec<Mas>,
    /// Words by folder and type.
    pub core_data: Layout,
}

/// The contents have one row per carrier and one file per carrier file.
pub open spec fn contents_fit(cs: Seq<Carrier>, rows: Seq<Vec<ReadParseFile>>) -> bool {
    &&& rows.len() == cs.len()
    &&& forall|i: int| 0 <= i < cs.len() ==> (#[trigger] rows[i])@.len() == cs[i].paths@.len()
}

impl Vocabulary {
    pub fn new() -> (v: Vocabulary)
        ensures
            v.name@ == Seq::<char>::empty(),
            v.dir@ == Seq::<char>::empty(),
            v.carrier@.len() == 0,
            v.data@.len() == 0,
            distinct_keys(v.data@),
            v.data_all@.len() == 0,
            v.core_data@.len() == 0,
    {
        Vocabulary {
            name: String::new(),
            carrier: Vec::new(),
            data: MasGroups::new(),
            dir: String::new(),
            data_all: Vec::new(),
            core_data: Layout::new(),
        }
    }

    /// The words of the files of the carriers, grouped by type and by folder;
    /// `contents[i][j]` is the content read from `carrier[i].paths[j].path`.
    pub fn read_files_data(&self, contents: &Vec<Vec<ReadParseFile>>) -> (res: (MasGroups, Layout))
        requires
            contents_fit(self.carrier@, contents@),
        ensures
            res.0@ == data_carriers(carrier_views(self.carrier@), contents_view(contents@)),
            distinct_keys(res.0@),
            res.1@ == layout_carriers(carrier_views(self.carrier@), contents_view(contents@)),
            layout_wf(res.1@),
    {
        let ghost cs = carrier_views(self.carrier@);
        let ghost cts = contents_view(contents@);
        let mut acc = MasGroups::new();
        let mut layout = Layout::new();
        for i in 0..self.carrier.len()
            invariant
                cs == carrier_views(self.carrier@),
                cts == contents_view(contents@),
                contents_fit(self.carrier@, contents@),
                distinct_keys(acc@),
                layout_wf(layout@),
                acc@ == data_carriers(cs.take(i as int), cts),
                layout@ == layout_carriers(cs.take(i as int), cts),
        {
            let carrier = &self.carrier[i];
            proof {
                assert(cs.take(i + 1).drop_last() =~= cs.take(i as int));
                assert(cs[i as int] == carrier_view(*carrier));
            }
            layout.touch(&carrier.folder);
            let ghost acc0 = acc@;
            let ghost lay0 = layout@;
            let ghost files = file_views(carrier.paths@);
            let row = &contents[i];
            assert(cts[i as int] == row@.map_values(|f: ReadParseFile| f.content@));
            for j in 0..carrier.paths.len()
                invariant
                    carrier.paths@.len() == row@.len(),
                    files == file_views(carrier.paths@),
                    cts[i as int] == row@.map_values(|f: ReadParseFile| f.content@),
                    distinct_keys(acc@),
                    layout_wf(layout@),
                    acc@ == data_files(acc0, carrier.folder@, files.take(j as int), cts[i as int]),
                    layout@ == layout_files(lay0, carrier.folder@, files.take(j as int), cts[i as int]),
            {
                let file = &carrier.paths[j];
                proof {
                    assert(files.take(j + 1).drop_last() =~= files.take(j as int));
                    assert(files.take(j + 1).last() == file@);
                    assert(cts[i as int][j as int] == row@[j as int].content@);
                }
                let mas = Mas::new().setup(&carrier.folder, &file.name);
                let text = ReadParseFile { content: row[j].content.clone() };
                let found = text.split_mas(mas);
                let copy = clone_mases(&found);
                if found.len() > 0 {
                    acc.add(&file.name, found);
                }
                layout.add(&carrier.folder, &file.name, copy);
            }
            proof {
                assert(files.take(carrier.paths@.len() as int) =~= files);
            }
        }
        proof {
            assert(cs.take(self.carrier@.len() as int) =~= cs);
        }
        (acc, layout)
    }

    /// All words, type after type.
    pub fn copy_data_into_array(&self) -> (acc: Vec<Mas>)
        ensures
            mas_views(acc@) == flatten(self.data@),
    {
        let ghost g = self.data@;
        let mut acc: Vec<Mas> = Vec::new();
        let n = self.data.len();
        for i in 0..n
            invariant
                n == g.len(),
                g == self.data@,
                mas_views(acc@) == flatten(g.take(i as int)),
        {
            let (_, ms) = self.data.group(i);
            proof {
                assert(g.take(i + 1).drop_last() =~= g.take(i as int));
            }
            let ghost acc0 = mas_views(acc@);
            assert(acc0.len() == acc@.len());
            for k in 0..ms.len()
                invariant
                    acc@.len() == acc0.len() + k,
                    mas_views(acc@) == acc0 + mas_views(ms@).take(k as int),
            {
                let c = ms[k].clone();
                let ghost r0 = acc@;
                acc.push(c);
                proof {
                    assert(mas_views(acc@) =~= mas_views(r0).push(c@));
                    assert(mas_views(ms@)[k as int] == c@);
                    assert(mas_views(ms@).take(k + 1) =~= mas_views(ms@).take(k as int).push(c@));
                    assert(mas_views(acc@) =~= acc0 + mas_views(ms@).take(k + 1));
                }
            }
            assert(mas_views(ms@).take(ms@.len() as int) =~= mas_views(ms@));
        }
        assert(g.take(g.len() as int) =~= g);
        acc
    }

    /// The directory name of the vocabulary called `name`.
    pub fn get_name(&self, name: &str) -> (res: String)
        ensures
            res@ == (if name@ == seq!['a', 'p', 'a', 'r', 't', 'e', 'r'] {
                seq!['a', 'p', 'a', 'r', 't', 'e', 'r', '/', 'v', 'o', 'c', 'a', 'b', 'u', 'l', 'a', 'r', 'y']
            } else {
                seq!['v', 'o', 'c', 'a', 'b', 'u', 'l', 'a', 'r', 'y']
            }),
    {
        proof {
            reveal_strlit("aparter");
            reveal_strlit("aparter/vocabulary");
            reveal_strlit("vocabulary");
        }
        let res = if str_eq(name, "aparter") {
            "aparter/vocabulary".to_owned()
        } else {
            "vocabulary".to_owned()
        };
        assert("aparter"@ =~= seq!['a', 'p', 'a', 'r', 't', 'e', 'r']);
        assert("aparter/vocabulary"@ =~= seq!['a', 'p', 'a', 'r', 't', 'e', 'r', '/', 'v', 'o', 'c', 'a', 'b', 'u', 'l', 'a', 'r', 'y']);
        assert("vocabulary"@ =~= seq!['v', 'o', 'c', 'a', 'b', 'u', 'l', 'a', 'r', 'y']);
        res
    }

    /// One carrier per configured folder, each with one file per type.
    pub fn get_carrier(&self, sphere: &Sphere) -> (acc: Vec<Carrier>)
        ensures
            acc@.len() == sphere.config.folders.list@.len(),
            forall|i: int|
                0 <= i < acc@.len() ==> {
                    &&& (#[trigger] acc@[i]).folder@ == sphere.config.folders.list@[i]@
                    &&& acc@[i].dir@ == joined(self.dir@, sphere.config.folders.list@[i]@)
                    &&& file_views(acc@[i].paths@) == files_in(
                        acc@[i].dir@,
                        views(sphere.config.types.list@),
                    )
                },
    {
        let mut acc: Vec<Carrier> = Vec::new();
        let folders = &sphere.config.folders.list;
        for i in 0..folders.len()
            invariant
                folders == sphere.config.folders.list,
                acc@.len() == i,
                forall|k: int|
                    0 <= k < i ==> {
                        &&& (#[trigger] acc@[k]).folder@ == folders@[k]@
                        &&& acc@[k].dir@ == joined(self.dir@, folders@[k]@)
                        &&& file_views(acc@[k].paths@) == files_in(
                            acc@[k].dir@,
                            views(sphere.config.types.list@),
                        )
                    },
        {
            let types = &sphere.config.types.list;
            let carrier = Carrier::new().setup(self, types, &folders[i]);
            acc.push(carrier);
        }
        acc
    }

    /// Names and places the vocabulary under the sphere's directory, and
    /// lays out its carriers. The files are read afterwards and handed to
    /// [`Vocabulary::fill`].
    pub fn setup(self, sphere: &Sphere, name: &str) -> (v: Vocabulary)
        ensures
            v.name@ == self.get_name_spec(name@),
            v.dir@ == joined(sphere.current_dir@, v.name@),
            v.carrier@.len() == sphere.config.folders.list@.len(),
            forall|i: int|
                0 <= i < v.carrier@.len() ==> {
                    &&& (#[trigger] v.carrier@[i]).folder@ == sphere.config.folders.list@[i]@
                    &&& v.carrier@[i].dir@ == joined(v.dir@, sphere.config.folders.list@[i]@)
                    &&& file_views(v.carrier@[i].paths@) == files_in(
                        v.carrier@[i].dir@,
                        views(sphere.config.types.list@),
                    )
                },
            v.data@ == self.data@,
            v.data_all == self.data_all,
            v.core_data@ == self.core_data@,
    {
        let mut v = self;
        v.name = v.get_name(name);
        v.dir = join_path(sphere.current_dir.as_str(), v.name.as_str());
        v.carrier = v.get_carrier(sphere);
        v
    }

    /// The directory name of the vocabulary called `name`.
    pub open spec fn get_name_spec(self, name: Seq<char>) -> Seq<char> {
        if name == seq!['a', 'p', 'a', 'r', 't', 'e', 'r'] {
            seq!['a', 'p', 'a', 'r', 't', 'e', 'r', '/', 'v', 'o', 'c', 'a', 'b', 'u', 'l', 'a', 'r', 'y']
        } else {
            seq!['v', 'o', 'c', 'a', 'b', 'u', 'l', 'a', 'r', 'y']
        }
    }

    /// Reads the words of the carriers' files: `contents[i][j]` is the
    /// content of `carrier[i].paths[j].path`.
    pub fn fill(self, contents: &Vec<Vec<ReadParseFile>>) -> (v: Vocabulary)
        requires
            contents_fit(self.carrier@, contents@),
        ensures
            v.data@ == data_carriers(carrier_views(self.carrier@), contents_view(contents@)),
            distinct_keys(v.data@),
            v.core_data@ == layout_carriers(carrier_views(self.carrier@), contents_view(contents@)),
            layout_wf(v.core_data@),
            mas_views(v.data_all@) == flatten(v.data@),
            v.name == self.name,
            v.dir == self.dir,
            v.carrier == self.carrier,
    {
        let (data, core_data) = self.read_files_data(contents);
        let mut v = self;
        v.data = data;
        v.core_data = core_data;
        v.data_all = v.copy_data_into_array();
        v
    }
}

/// The working directory, the configuration and the vocabulary.
#[derive(Debug)]
pub struct Sphere {
    pub current_dir: String,
    pub config: Config,
    pub vocabulary: Vocabulary,
}

impl Sphere {
    pub fn new() -> (s: Sphere)
        ensures
            s.current_dir@ == Seq::<char>::empty(),
            s.config.dir@ == Seq::<char>::empty(),
            s.config.folders.name@ == Seq::<char>::empty(),
            s.config.folders.file_name@ == Seq::<char>::empty(),
            s.config.folders.file_path@ == Seq::<char>::empty(),
            s.config.folders.list@.len() == 0,
            s.config.types.name@ == Seq::<char>::empty(),
            s.config.types.file_name@ == Seq::<char>::empty(),
            s.config.types.file_path@ == Seq::<char>::empty(),
            s.config.types.list@.len() == 0,
            s.vocabulary.name@ == Seq::<char>::empty(),
            s.vocabulary.dir@ == Seq::<char>::empty(),
            s.vocabulary.carrier@.len() == 0,
            s.vocabulary.data@.len() == 0,
            distinct_keys(s.vocabulary.data@),
            s.vocabulary.data_all@.len() == 0,
            s.vocabulary.core_data@.len() == 0,
    {
        Sphere { current_dir: String::new(), config: Config::new(), vocabulary: Vocabulary::new() }
    }
}

/// The words of the vocabulary, type after type.
pub fn extract_forbid_words(sphere: &Sphere) -> (words: Vec<String>)
    ensures
        views(words@) == mas_views(sphere.vocabulary.data_all@).map_values(|m: MasView| m.word),
{
    let all = &sphere.vocabulary.data_all;
    let mut words: Vec<String> = Vec::new();
    for i in 0..all.len()
        invariant
            words@.len() == i,
            views(words@) == mas_views(all@).map_values(|m: MasView| m.word).take(i as int),
    {
        words.push(all[i].word.clone());
        assert(views(words@) =~= mas_views(all@).map_values(|m: MasView| m.word).take(i + 1));
    }
    assert(mas_views(all@).map_values(|m: MasView| m.word).take(all@.len() as int) =~= mas_views(
        all@,
    ).map_values(|m: MasView| m.word));
    words
}

/// The words of the files `files` of folder `folder`, file after file.
pub open spec fn files_words(folder: Seq<char>, files: Seq<FileView>, conts: Seq<Seq<char>>) -> Seq<MasView>
    decreases files.len(),
{
    if files.len() == 0 {
        seq![]
    } else {
        files_words(folder, files.drop_last(), conts) + block(folder, files.last(), conts[files.len() - 1])
    }
}

/// The words of all files of the carriers `cs`, file after file.
pub open spec fn carriers_words(cs: Seq<(Seq<char>, Seq<FileView>)>, contents: Seq<Seq<Seq<char>>>) -> Seq<MasView>
    decreases cs.len(),
{
    if cs.len() == 0 {
        seq![]
    } else {
        carriers_words(cs.drop_last(), contents) + files_words(cs.last().0, cs.last().1, contents[cs.len() - 1])
    }
}

proof fn lemma_flatten_extend(g: GroupsView, i: int, extra: Seq<MasView>)
    requires
        0 <= i < g.len(),
    ensures
        flatten(g.update(i, (g[i].0, g[i].1 + extra))).to_multiset() == flatten(g).to_multiset().add(
            extra.to_multiset(),
        ),
    decreases g.len(),
{
    broadcast use vstd::seq_lib::lemma_multiset_commutative, vstd::seq_lib::group_to_multiset_ensures;

    let h = g.update(i, (g[i].0, g[i].1 + extra));
    assert(h.last() == if i == g.len() - 1 {
        (g[i].0, g[i].1 + extra)
    } else {
        g.last()
    });
    if i == g.len() - 1 {
        assert(h.drop_last() =~= g.drop_last());
        assert(flatten(h) == flatten(g.drop_last()) + (g.last().1 + extra));
        assert(flatten(g.drop_last()) + (g.last().1 + extra) =~= (flatten(g.drop_last()) + g.last().1)
            + extra);
    } else {
        let p = g.drop_last();
        assert(h.drop_last() =~= p.update(i, (p[i].0, p[i].1 + extra)));
        lemma_flatten_extend(p, i, extra);
        assert(flatten(h) == flatten(h.drop_last()) + g.last().1);
    }
    assert(flatten(h).to_multiset() =~= flatten(g).to_multiset().add(extra.to_multiset()));
}

proof fn lemma_flatten_gadd(g: GroupsView, k: Seq<char>, items: Seq<MasView>)
    ensures
        flatten(gadd(g, k, items)).to_multiset() == flatten(g).to_multiset().add(items.to_multiset()),
{
    broadcast use vstd::seq_lib::lemma_multiset_commutative, vstd::seq_lib::group_to_multiset_ensures;

    match gfind(g, k) {
        Some(i) => {
            assert(g[i].0 == k);
            lemma_flatten_extend(g, i, items);
        },
        None => {
            assert(g.push((k, items)).drop_last() =~= g);
        },
    }
}

proof fn lemma_data_files_words(g: GroupsView, folder: Seq<char>, files: Seq<FileView>, conts: Seq<Seq<char>>)
    ensures
        flatten(data_files(g, folder, files, conts)).to_multiset() == flatten(g).to_multiset().add(
            files_words(folder, files, conts).to_multiset(),
        ),
    decreases files.len(),
{
    broadcast use vstd::seq_lib::lemma_multiset_commutative, vstd::seq_lib::group_to_multiset_ensures;

    if files.len() == 0 {
        assert(files_words(folder, files, conts).to_multiset() =~= Multiset::empty()) by {
            assert(files_words(folder, files, conts) =~= Seq::<MasView>::empty());
        }
        assert(flatten(g).to_multiset().add(Multiset::empty()) =~= flatten(g).to_multiset());
    } else {
        lemma_data_files_words(g, folder, files.drop_last(), conts);
        let b = block(folder, files.last(), conts[files.len() - 1]);
        let prev = data_files(g, folder, files.drop_last(), conts);
        if b.len() > 0 {
            lemma_flatten_gadd(prev, files.last().name, b);
        } else {
            assert(b.to_multiset() =~= Multiset::empty()) by {
                assert(b =~= Seq::<MasView>::empty());
            }
        }
        assert(flatten(data_files(g, folder, files, conts)).to_multiset() =~= flatten(g).to_multiset().add(
            files_words(folder, files, conts).to_multiset(),
        ));
    }
}

/// Grouping loses and invents no word: the words grouped by type, group
/// after group, are the words of all vocabulary files, counted alike.
pub proof fn law_grouping_keeps_words(cs: Seq<(Seq<char>, Seq<FileView>)>, contents: Seq<Seq<Seq<char>>>)
    ensures
        flatten(data_carriers(cs, contents)).to_multiset() == carriers_words(cs, contents).to_multiset(),
    decreases cs.len(),
{
    broadcast use vstd::seq_lib::lemma_multiset_commutative, vstd::seq_lib::group_to_multiset_ensures;

    if cs.len() == 0 {
        assert(flatten(Seq::<(Seq<char>, Seq<MasView>)>::empty()) =~= Seq::<MasView>::empty());
    } else {
        law_grouping_keeps_words(cs.drop_last(), contents);
        lemma_data_files_words(data_carriers(cs.drop_last(), contents), cs.last().0, cs.last().1, contents[cs.len() - 1]);
        assert(flatten(data_carriers(cs, contents)).to_multiset() =~= carriers_words(cs, contents).to_multiset());
    }
}

} // verus!
