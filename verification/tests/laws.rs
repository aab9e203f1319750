use lib::sphere::{ReadParseFile, Sphere, Vocabulary};
use lib::sync::{App, File, Lang, Line, Release, Spoken, Sync};
use lib::text::decimal_string;

fn words(v: &[&str]) -> Vec<String> {
    v.iter().map(|s| s.to_string()).collect()
}

fn spoken(list: &str, langs: &[&str]) -> Spoken {
    let mut sphere = Sphere::new();
    sphere.current_dir = "/w".to_string();
    sphere.config.folders.list = words(&["basic"]);
    sphere.config.types.list = words(&["noun"]);
    let voc = Vocabulary::new().setup(&sphere, "");
    sphere.vocabulary = voc.fill(&vec![vec![ReadParseFile { content: list.to_string() }]]);
    let languages = ReadParseFile { content: langs.join(" ") };
    let connector = Sync::new().setup(&sphere, "/w".to_string(), &languages);
    let file = File::new().setup(&"noun".to_string(), &connector);
    Spoken::new(file, &"noun".to_string(), &sphere)
}

fn entries(lang: &Lang) -> Vec<(usize, String, String)> {
    (0..lang.data.len())
        .map(|i| {
            let (k, m) = lang.data.entry(i);
            (k, m.word.clone(), m.sentence.clone())
        })
        .collect()
}

#[test]
fn written_file_reads_back() {
    let mut conn = spoken("cat\ndog\ncow\n", &["english", "spanish"]);
    App::start(&mut conn);
    let english = Lang::new(3, "english.on", "1, dog, a  dog\n2, cat, a cat\n".to_string());
    let spanish = Lang::new(3, "spanish.on", "1, perro, un perro\n2, gato-3, un gato\n7, extra, z\n".to_string());
    let texts = App::process(&mut conn, english, vec![spanish]);
    for (lang, text) in conn.release.iter().zip(texts.iter()) {
        let back = Lang::new(0, &lang.file_name, text.clone());
        let kept: Vec<(usize, String, String)> =
            entries(lang).into_iter().filter(|e| 1 <= e.0 && e.0 <= 3).collect();
        assert_eq!(entries(&back), kept);
    }
}

#[test]
fn numbered_repeats_read_back_as_the_word() {
    let mut conn = spoken("a\nb\nc\n", &["english"]);
    App::start(&mut conn);
    conn.release.push(Lang::new(3, "english.on", "1, y, one\n2, y, two\n3, y, three\n".to_string()));
    let texts = App::compose(&conn);
    assert_eq!(texts[0], "1, y, one\n2, y-1, two\n3, y-2, three\n");
    let back = Lang::new(3, "english.on", texts[0].clone());
    assert_eq!(entries(&back), entries(&conn.release[0]));
}

#[test]
fn written_ranks_ascend() {
    let mut conn = spoken("a\nb\nc\nd\n", &["english"]);
    App::start(&mut conn);
    conn.release.push(Lang::new(4, "english.on", "4, d, x\n2, b, y\n9, z, q\n".to_string()));
    let texts = App::compose(&conn);
    let ranks: Vec<usize> = File::parse_into_lines(texts[0].clone())
        .iter()
        .map(|l| File::parse_line(l).rank)
        .collect();
    assert_eq!(ranks, vec![1, 2, 3, 4]);
}

#[test]
fn sentence_normalisation_is_idempotent() {
    for s in ["  a  b\t c ", "", "one", "x\u{2003}y"] {
        let once = Line::sentence(s);
        assert_eq!(Line::sentence(&once), once);
    }
}

#[test]
fn decimal_parses_back() {
    for n in [0usize, 7, 10, 12345, usize::MAX] {
        let line = format!("{}, a, b", decimal_string(n));
        assert_eq!(File::parse_line(&line).rank, n);
    }
}

#[test]
fn lines_are_trimmed() {
    for l in File::parse_into_lines(" a b \n\t\n c\r\n".to_string()) {
        assert!(!l.is_empty());
        assert_eq!(l.trim(), l);
    }
}

#[test]
fn ranks_are_last_positions() {
    let mut conn = spoken("a\nb\na\nc\n", &["english"]);
    App::start(&mut conn);
    assert_eq!(conn.store.get("a"), Some(&3));
    assert_eq!(conn.store.get("b"), Some(&2));
    assert_eq!(conn.store.get("c"), Some(&4));
    assert_eq!(conn.store.get("d"), None);
    assert_eq!(conn.keys.len(), 4);
}

#[test]
fn grouping_keeps_every_word() {
    let mut sphere = Sphere::new();
    sphere.config.folders.list = words(&["f1", "f2"]);
    sphere.config.types.list = words(&["t1", "t2"]);
    let voc = Vocabulary::new().setup(&sphere, "");
    let contents = vec![
        vec![ReadParseFile { content: "a\nb".to_string() }, ReadParseFile { content: "c".to_string() }],
        vec![ReadParseFile { content: "d".to_string() }, ReadParseFile { content: "e\n\nf".to_string() }],
    ];
    let voc = voc.fill(&contents);
    let mut all: Vec<String> = voc.data_all.iter().map(|m| m.word.clone()).collect();
    all.sort();
    assert_eq!(all, words(&["a", "b", "c", "d", "e", "f"]));
}

fn synchronise(list: &str, english: &str, spanish: &str) -> Vec<String> {
    let mut conn = spoken(list, &["english", "spanish"]);
    App::start(&mut conn);
    let max = conn.store.len();
    let english = Lang::new(max, "english.on", english.to_string());
    let spanish = Lang::new(max, "spanish.on", spanish.to_string());
    assert!(App::english_fits(&conn, &english));
    let changes = App::moves_of(&conn, &english);
    assert!(App::lang_fits(&changes, &spanish));
    App::process(&mut conn, english, vec![spanish])
}

#[test]
fn second_synchronisation_rewrites_the_same_texts() {
    let list = "cat\ndog\ncow\n";
    let first = synchronise(
        list,
        "1, dog, a  dog\n2, cat, a cat\n5, owl, far\n",
        "1, perro, un perro\n2, gato-3, un gato\n3, vaca, una vaca\n7, extra, z\n",
    );
    assert_eq!(first[0], "1, cat, a cat\n2, dog, a dog\n3, cow, s\n");
    assert_eq!(first[1], "1, gato, un gato\n2, perro, un perro\n3, vaca, una vaca\n");
    let mut conn = spoken(list, &["english", "spanish"]);
    App::start(&mut conn);
    let english = Lang::new(conn.store.len(), "english.on", first[0].clone());
    assert!(App::moves_of(&conn, &english).is_empty());
    let second = synchronise(list, &first[0], &first[1]);
    assert_eq!(second, first);
}

#[test]
fn sentence_is_tidy_and_no_longer() {
    for s in ["  a  b\t c ", "", "   ", "one", "x\u{2003}\u{2003}y\u{a0}", "\u{3000}é  ü\n"] {
        let t = Line::sentence(s);
        assert!(t.chars().count() <= s.chars().count());
        assert!(t.len() <= s.len());
        assert_eq!(t.trim(), t);
        assert!(!t.contains("  "));
        assert!(t.chars().all(|c| c == ' ' || !c.is_whitespace()));
    }
    assert_eq!(Line::sentence("x\u{2003}\u{2003}y\u{a0}"), "x y");
}

#[test]
fn report_line_only_for_written_release() {
    assert_eq!(Release::report_for("noun", "spanish.on", &String::new(), 0), None);
    let (text, size) = Release::render("1, gato, un gato\n2, w, s\n".to_string());
    assert_eq!(size, 1);
    assert_eq!(
        Release::report_for("noun", "spanish.on", &text, size),
        Some("noun, spanish.on, 1".to_string())
    );
}
