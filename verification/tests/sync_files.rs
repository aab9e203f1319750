use lib::sphere::{self, ReadParseFile, Sphere, Vocabulary};
use lib::sync::{App, File, Lang, LineFault, Line, Release, Spoken, Sync};

fn words(v: &[&str]) -> Vec<String> {
    v.iter().map(|s| s.to_string()).collect()
}

#[test]
fn sentence_collapses_whitespace() {
    assert_eq!(Line::sentence("  hello   big\tworld "), "hello big world");
    assert_eq!(Line::sentence(""), "");
    assert_eq!(Line::sentence(" \t "), "");
}

#[test]
fn word_is_first_token() {
    assert_eq!(Line::word("  abc def"), "abc");
    assert_eq!(Line::word("x"), "x");
}

#[test]
fn lines_are_trimmed_and_non_empty() {
    let lines = File::parse_into_lines("a\n  \n b \n\n".to_string());
    assert_eq!(lines, words(&["a", "b"]));
    assert_eq!(File::parse_into_lines(String::new()), Vec::<String>::new());
}

#[test]
fn parse_line_reads_three_fields() {
    let m = File::parse_line("12 , hello world , the   sentence");
    assert_eq!(m.rank, 12);
    assert_eq!(m.word, "hello");
    assert_eq!(m.sentence, "the sentence");
    let p = File::parse_line_release("+5,a,b");
    assert_eq!(p.rank, 5);
}

#[test]
fn check_line_reports_each_fault() {
    assert_eq!(File::check_line("1, w, s", false), Ok(()));
    assert_eq!(File::check_line("1, w", false), Err(LineFault::FieldCount(2)));
    assert_eq!(File::check_line("1, a, b, c", true), Err(LineFault::FieldCount(4)));
    assert_eq!(File::check_line("1,, a, b", true), Ok(()));
    assert_eq!(File::check_line("x, a, b", false), Err(LineFault::BadRank));
    assert_eq!(File::check_line("-1, a, b", false), Err(LineFault::BadRank));
    assert_eq!(File::check_line("99999999999999999999999, a, b", false), Err(LineFault::BadRank));
    let long = format!("1, a, {}", "x".repeat(301));
    assert_eq!(File::check_line(&long, false), Err(LineFault::LongSentence));
    assert_eq!(File::check_line(&long, true), Ok(()));
    let exact = format!("1, a, {}", "é".repeat(150));
    assert_eq!(File::check_line(&exact, false), Ok(()));
    let over = format!("1, a, {}x", "é".repeat(150));
    assert_eq!(File::check_line(&over, false), Err(LineFault::LongSentence));
}

#[test]
fn lang_new_cuts_words_and_fills_ranks() {
    let lang = Lang::new(3, "english.on", "2, cat-1, a cat\n5, dog, a dog\n2, cow, later\n".to_string());
    assert_eq!(lang.file_name, "english.on");
    assert_eq!(lang.data.len(), 4);
    let e1 = lang.data.get(1).unwrap();
    assert_eq!((e1.rank, e1.word.as_str(), e1.sentence.as_str()), (1, "w", "s"));
    let e2 = lang.data.get(2).unwrap();
    assert_eq!((e2.rank, e2.word.as_str(), e2.sentence.as_str()), (2, "cow", "later"));
    let e5 = lang.data.get(5).unwrap();
    assert_eq!(e5.word, "dog");
    assert!(lang.data.get(4).is_none());
    let cut = Lang::new(0, "x.on", "7, cat-1, a".to_string());
    assert_eq!(cut.data.get(7).unwrap().word, "cat");
}

#[test]
fn lang_check_content_finds_first_bad_line() {
    assert_eq!(Lang::check_content("1, a, b\n\n2, c, d\n".to_string()), Ok(()));
    assert_eq!(
        Lang::check_content("1, a, b\n\n2, c\n3, x".to_string()),
        Err((2, LineFault::FieldCount(2)))
    );
}

#[test]
fn new_clean_holds_placeholders() {
    let lang = Lang::new_clean(2, "a.on");
    assert_eq!(lang.data.len(), 2);
    assert_eq!(lang.data.get(2).unwrap().word, "w");
    assert_eq!(lang.data.get(2).unwrap().sentence, "s");
}

fn sphere_with(list: &str) -> Sphere {
    let mut sphere = Sphere::new();
    sphere.current_dir = "/work".to_string();
    sphere.config.folders.list = words(&["basic"]);
    sphere.config.types.list = words(&["noun"]);
    let voc = Vocabulary::new().setup(&sphere, "");
    let contents = vec![vec![ReadParseFile { content: list.to_string() }]];
    sphere.vocabulary = voc.fill(&contents);
    sphere
}

fn connector(langs: &[&str]) -> Sync {
    let sphere = sphere_with("");
    let file = ReadParseFile { content: langs.join("\n") };
    Sync::new().setup(&sphere, "/work".to_string(), &file)
}

#[test]
fn sync_file_setup_names_other_languages() {
    let conn = connector(&["english", "spanish", "french"]);
    let f = File::new().setup(&"noun".to_string(), &conn);
    assert_eq!(f.folder_name, "spoken/noun");
    assert_eq!(f.files_names, words(&["spanish.on", "french.on"]));
    assert_eq!(f.file_path, "spoken/noun/english.on");
}

#[test]
fn full_synchronisation_moves_lines() {
    let sphere = sphere_with("cat\ndog\ncow\n");
    let c = connector(&["english", "spanish"]);
    let file = File::new().setup(&"noun".to_string(), &c);
    let mut conn = Spoken::new(file, &"noun".to_string(), &sphere);
    assert_eq!(conn.list, words(&["cat", "dog", "cow"]));
    App::start(&mut conn);
    assert_eq!(conn.keys.len(), 3);
    let english = Lang::new(3, "english.on", "1, dog, a dog\n2, cat, a cat\n4, extra, something\n".to_string());
    assert!(App::english_fits(&conn, &english));
    let changes = App::moves_of(&conn, &english);
    let spanish = Lang::new(3, "spanish.on", "1, perro, un perro\n2, gato, un gato\n".to_string());
    assert!(App::lang_fits(&changes, &spanish));
    let texts = App::process(&mut conn, english, vec![spanish]);
    assert_eq!(texts.len(), 2);
    assert_eq!(texts[0], "1, cat, a cat\n2, dog, a dog\n3, cow, s\n");
    assert_eq!(texts[1], "1, gato, un gato\n2, perro, un perro\n3, w, s\n");
    assert_eq!(conn.release[0].file_name, "english.on");
    assert_eq!(conn.release[1].file_name, "spanish.on");
}

#[test]
fn compose_numbers_repeated_words() {
    let sphere = sphere_with("a\nb\nc\n");
    let c = connector(&["english"]);
    let file = File::new().setup(&"noun".to_string(), &c);
    let mut conn = Spoken::new(file, &"noun".to_string(), &sphere);
    App::start(&mut conn);
    let english = Lang::new(3, "english.on", "1, x, one\n2, x, two\n3, x, three\n".to_string());
    let texts = App::process(&mut conn, english, vec![]);
    // No English word is in the vocabulary: the ranks keep placeholders, renamed.
    assert_eq!(texts[0], "1, a, s\n2, b, s\n3, c, s\n");
    let again = Lang::new(3, "english.on", "1, y, one\n2, y, two\n3, w, s\n".to_string());
    conn.release.clear();
    conn.release.push(again);
    let texts = App::compose(&conn);
    assert_eq!(texts[0], "1, y, one\n2, y-1, two\n3, w, s\n");
}

#[test]
fn disagreeing_moves_leave_a_placeholder() {
    let sphere = sphere_with("a\nb\n");
    let c = connector(&["english", "german"]);
    let file = File::new().setup(&"noun".to_string(), &c);
    let mut conn = Spoken::new(file, &"noun".to_string(), &sphere);
    App::start(&mut conn);
    // Two English lines hold `a`: both move to rank 1.
    let english = Lang::new(2, "english.on", "2, a, first\n3, a, second\n".to_string());
    let changes = App::moves_of(&conn, &english);
    assert_eq!(changes.len(), 2);
    let german = Lang::new(2, "german.on", "2, eins, x\n3, zwei, y\n".to_string());
    assert!(App::lang_fits(&changes, &german));
    let texts = App::process(&mut conn, english, vec![german]);
    assert_eq!(texts[0], "1, a, second\n2, b, s\n");
    assert_eq!(texts[1], "1, w, s\n2, w, s\n");
}

#[test]
fn english_rank_beyond_store_does_not_fit() {
    let sphere = sphere_with("a\na\nb\n");
    let c = connector(&["english"]);
    let file = File::new().setup(&"noun".to_string(), &c);
    let mut conn = Spoken::new(file, &"noun".to_string(), &sphere);
    App::start(&mut conn);
    assert_eq!(conn.store.len(), 2);
    let english = Lang::new(2, "english.on", "1, b, x\n".to_string());
    assert!(!App::english_fits(&conn, &english));
}

#[test]
fn missing_old_rank_does_not_fit() {
    let sphere = sphere_with("a\n");
    let c = connector(&["english", "dutch"]);
    let file = File::new().setup(&"noun".to_string(), &c);
    let mut conn = Spoken::new(file, &"noun".to_string(), &sphere);
    App::start(&mut conn);
    let english = Lang::new(1, "english.on", "9, a, x\n".to_string());
    let changes = App::moves_of(&conn, &english);
    let dutch = Lang::new(1, "dutch.on", String::new());
    assert!(!App::lang_fits(&changes, &dutch));
}

#[test]
fn release_keeps_filled_lines() {
    let (text, size) = Release::render("1, a, b\n2, w, s\n3, c, s\n4 , d e , f  g\n".to_string());
    assert_eq!(text, "1,a,b\n4,d,f g\n");
    assert_eq!(size, 2);
    assert_eq!(Release::check("1, a\n".to_string()), Err((1, LineFault::FieldCount(2))));
    assert_eq!(Release::report_line("noun", "english.on", 2), "noun, english.on, 2");
    assert_eq!(Release::report(&words(&["a", "b"])), "a\nb");
    assert_eq!(Release::source_path("noun", "x.on"), "spoken/noun/x.on");
    assert_eq!(Release::target_dir("noun"), "release/noun");
}

#[test]
fn languages_carriers_list_language_files() {
    let mut sphere = sphere_with("");
    sphere.config.types.list = words(&["noun", "verb"]);
    let file = ReadParseFile { content: "english spanish".to_string() };
    let s = Sync::new().setup(&sphere, "/w".to_string(), &file);
    assert_eq!(s.languages.dir, "/w/spoken");
    assert_eq!(s.languages.carrier.len(), 2);
    assert_eq!(s.languages.carrier[1].dir, "/w/spoken/verb");
    assert_eq!(s.languages.carrier[1].paths, words(&["/w/spoken/verb/english.on", "/w/spoken/verb/spanish.on"]));
    assert_eq!(s.languages.carrier[0].types, words(&["noun", "verb"]));
}

#[test]
fn unused_sphere_module_items_are_reachable() {
    let m = sphere::Mas::new();
    assert_eq!(m.line, 0);
}
