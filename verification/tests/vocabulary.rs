use lib::sphere::{
    dotted, extract_forbid_words, join_path, Carrier, Config, File, Mas, ReadParseFile, Sphere,
    Vocabulary,
};
use lib::text::decimal_string;

fn words(v: &[&str]) -> Vec<String> {
    v.iter().map(|s| s.to_string()).collect()
}

#[test]
fn split_whitespace_gives_tokens() {
    let f = ReadParseFile { content: "  a  b\tc\n\u{3000}d ".to_string() };
    assert_eq!(f.split_whitespace(), words(&["a", "b", "c", "d"]));
    let e = ReadParseFile { content: " \n ".to_string() };
    assert_eq!(e.split_whitespace(), Vec::<String>::new());
}

#[test]
fn split_mas_numbers_lines() {
    let f = ReadParseFile { content: "x\n\n  y z \n".to_string() };
    let t = Mas::new().setup(&"folder".to_string(), &"noun".to_string());
    let ms = f.split_mas(t);
    assert_eq!(ms.len(), 2);
    assert_eq!((ms[0].line, ms[0].word.as_str()), (1, "x"));
    assert_eq!((ms[1].line, ms[1].word.as_str()), (3, "y z"));
    assert_eq!(ms[1].tipo, "noun");
    assert_eq!(ms[1].folder, "folder");
}

#[test]
fn join_path_follows_path_join() {
    assert_eq!(join_path("a", "b"), "a/b");
    assert_eq!(join_path("a/", "b"), "a/b");
    assert_eq!(join_path("", "b"), "b");
    assert_eq!(join_path("a", "/b"), "/b");
    assert_eq!(dotted("types", "on"), "types.on");
}

#[test]
fn decimal_string_formats() {
    assert_eq!(decimal_string(0), "0");
    assert_eq!(decimal_string(907), "907");
    assert_eq!(decimal_string(usize::MAX), usize::MAX.to_string());
}

#[test]
fn config_locates_and_fills_lists() {
    let mut sphere = Sphere::new();
    sphere.current_dir = "/home/v".to_string();
    let config = Config::new().setup(&sphere);
    assert_eq!(config.dir, "/home/v/config");
    assert_eq!(config.folders.file_path, "/home/v/config/folders.on");
    assert_eq!(config.types.file_path, "/home/v/config/types.on");
    let config = config.fill(
        &ReadParseFile { content: "basic\nextra".to_string() },
        &ReadParseFile { content: "noun verb".to_string() },
    );
    assert_eq!(config.folders.list, words(&["basic", "extra"]));
    assert_eq!(config.types.list, words(&["noun", "verb"]));
}

#[test]
fn vocabulary_groups_words_by_type() {
    let mut sphere = Sphere::new();
    sphere.current_dir = "/v".to_string();
    sphere.config.folders.list = words(&["basic", "extra"]);
    sphere.config.types.list = words(&["noun", "verb"]);
    let voc = Vocabulary::new().setup(&sphere, "");
    assert_eq!(voc.name, "vocabulary");
    assert_eq!(voc.dir, "/v/vocabulary");
    assert_eq!(voc.carrier.len(), 2);
    assert_eq!(voc.carrier[1].dir, "/v/vocabulary/extra");
    assert_eq!(voc.carrier[1].paths[0].path, "/v/vocabulary/extra/noun.on");
    assert_eq!(voc.carrier[1].paths[1].full_name, "verb.on");
    let contents = vec![
        vec![
            ReadParseFile { content: "cat\ndog".to_string() },
            ReadParseFile { content: "".to_string() },
        ],
        vec![
            ReadParseFile { content: "run".to_string() },
            ReadParseFile { content: "\ncow\n".to_string() },
        ],
    ];
    let voc = voc.fill(&contents);
    assert_eq!(voc.data.len(), 2);
    let (k0, g0) = voc.data.group(0);
    assert_eq!(k0, "noun");
    let names: Vec<&str> = g0.iter().map(|m| m.word.as_str()).collect();
    assert_eq!(names, vec!["cat", "dog", "run"]);
    assert_eq!(g0[2].line, 1);
    assert_eq!(g0[2].folder, "extra");
    let (k1, g1) = voc.data.group(1);
    assert_eq!(k1, "verb");
    assert_eq!(g1.len(), 1);
    assert_eq!((g1[0].word.as_str(), g1[0].line), ("cow", 2));
    assert_eq!(voc.core_data.len(), 2);
    let (f0, groups0) = voc.core_data.folder(0);
    assert_eq!(f0, "basic");
    assert_eq!(groups0.len(), 2);
    assert_eq!(groups0.group(1).1.len(), 0);
    sphere.vocabulary = voc;
    assert_eq!(extract_forbid_words(&sphere), words(&["cat", "dog", "run", "cow"]));
    assert_eq!(sphere.vocabulary.get_name("aparter"), "aparter/vocabulary");
}

#[test]
fn carrier_and_file_setup() {
    let mut c = Carrier::new();
    c.dir = "d".to_string();
    let f = File::new().setup(&"noun".to_string(), &c);
    assert_eq!((f.ext.as_str(), f.name.as_str(), f.full_name.as_str(), f.path.as_str()), ("on", "noun", "noun.on", "d/noun.on"));
    let paths = c.get_data_paths(&words(&["a", "b"]));
    assert_eq!(paths[1].path, "d/b.on");
}
