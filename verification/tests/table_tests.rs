use text_engine::error::EngineError;
use text_engine::table::{get_all_text, get_text, insert, Document, Run};

fn run(start_index: usize, end_index: usize, append_buffer: bool) -> Run {
    Run { start_index, end_index, append_buffer }
}

fn plain_insert(plain: &mut String, index: usize, text: &str) {
    if index >= plain.len() {
        plain.push_str(text);
    } else {
        plain.insert_str(index, text);
    }
}

fn pieces(document: &Document) -> Vec<String> {
    let mut found = Vec::new();
    for run in document.runs() {
        found.push(get_text(document, run).unwrap().to_string());
    }
    found
}

#[test]
fn insert_in_the_middle_of_the_initial_text() {
    let mut document = Document::new(Some("Hello World"));
    assert_eq!(insert(&mut document, 5, ","), Ok(()));
    assert_eq!(get_all_text(&document), "Hello, World");
}

#[test]
fn insert_at_start_then_at_end_appends() {
    let mut document = Document::new(Some("AB"));
    assert_eq!(insert(&mut document, 0, "X"), Ok(()));
    assert_eq!(insert(&mut document, 3, "Y"), Ok(()));
    assert_eq!(get_all_text(&document), "XABY");
}

#[test]
fn new_document_holds_the_initial_text_in_one_run() {
    let document = Document::new(Some("Hello World"));
    assert_eq!(get_all_text(&document), "Hello World");
    assert_eq!(document.runs(), &vec![run(0, 11, false)]);
}

#[test]
fn new_document_without_text_has_no_run() {
    let document = Document::new(None);
    assert_eq!(get_all_text(&document), "");
    assert!(document.runs().is_empty());
}

#[test]
fn new_document_with_empty_text_has_one_empty_run() {
    let document = Document::new(Some(""));
    assert_eq!(get_all_text(&document), "");
    assert_eq!(document.runs(), &vec![run(0, 0, false)]);
}

#[test]
fn insert_splits_the_run_that_contains_the_offset() {
    let mut document = Document::new(Some("Hello World"));
    assert_eq!(insert(&mut document, 5, ","), Ok(()));
    assert_eq!(
        document.runs(),
        &vec![run(0, 5, false), run(0, 1, true), run(5, 11, false)]
    );
    assert_eq!(pieces(&document), vec!["Hello", ",", " World"]);
}

#[test]
fn insert_at_the_start_of_a_run_leaves_an_empty_run_before_the_text() {
    let mut document = Document::new(Some("AB"));
    assert_eq!(insert(&mut document, 0, "X"), Ok(()));
    assert_eq!(
        document.runs(),
        &vec![run(0, 0, false), run(0, 1, true), run(0, 2, false)]
    );
}

#[test]
fn insert_at_the_end_appends_one_run() {
    let mut document = Document::new(Some("AB"));
    assert_eq!(insert(&mut document, 2, "CD"), Ok(()));
    assert_eq!(document.runs(), &vec![run(0, 2, false), run(0, 2, true)]);
    assert_eq!(get_all_text(&document), "ABCD");
}

#[test]
fn insert_past_the_end_appends() {
    let mut document = Document::new(Some("AB"));
    assert_eq!(insert(&mut document, 100, "!"), Ok(()));
    assert_eq!(get_all_text(&document), "AB!");
    assert_eq!(document.runs(), &vec![run(0, 2, false), run(0, 1, true)]);
}

#[test]
fn insert_into_a_document_without_text() {
    let mut document = Document::new(None);
    assert_eq!(insert(&mut document, 0, "first"), Ok(()));
    assert_eq!(insert(&mut document, 7, " last"), Ok(()));
    assert_eq!(insert(&mut document, 5, ","), Ok(()));
    assert_eq!(get_all_text(&document), "first, last");
}

#[test]
fn insert_of_empty_text_changes_no_text() {
    let mut document = Document::new(Some("Hello"));
    assert_eq!(insert(&mut document, 2, ""), Ok(()));
    assert_eq!(get_all_text(&document), "Hello");
    assert_eq!(
        document.runs(),
        &vec![run(0, 2, false), run(0, 0, true), run(2, 5, false)]
    );
}

#[test]
fn offsets_count_bytes_of_the_document_not_of_a_buffer() {
    let mut document = Document::new(Some("Hello World"));
    assert_eq!(insert(&mut document, 5, ","), Ok(()));
    assert_eq!(insert(&mut document, 7, "big "), Ok(()));
    assert_eq!(get_all_text(&document), "Hello, big World");
    assert_eq!(insert(&mut document, 6, "!"), Ok(()));
    assert_eq!(get_all_text(&document), "Hello,! big World");
}

#[test]
fn insert_inside_inserted_text_splits_the_inserted_run() {
    let mut document = Document::new(Some("ad"));
    assert_eq!(insert(&mut document, 1, "bc"), Ok(()));
    assert_eq!(insert(&mut document, 2, "-"), Ok(()));
    assert_eq!(get_all_text(&document), "ab-cd");
    assert_eq!(
        document.runs(),
        &vec![
            run(0, 1, false),
            run(0, 1, true),
            run(2, 3, true),
            run(1, 2, true),
            run(1, 2, false)
        ]
    );
}

#[test]
fn test_insert_at_start() {
    let mut document = Document::new(Some("Hell🌍 World"));
    assert_eq!(insert(&mut document, 0, "Prefix: "), Ok(()));
    assert_eq!(get_all_text(&document), "Prefix: Hell🌍 World");
}

#[test]
fn test_insert_at_end() {
    let mut document = Document::new(Some("Hell🌍 World"));
    assert_eq!(insert(&mut document, 14, " (Suffix)"), Ok(()));
    assert_eq!(get_all_text(&document), "Hell🌍 World (Suffix)");
}

#[test]
fn test_insert_middle() {
    let mut document = Document::new(Some("Hell🌍 World"));
    assert_eq!(insert(&mut document, 8, " 🐶🇫🇷😔"), Ok(()));
    assert_eq!(get_all_text(&document), "Hell🌍 🐶🇫🇷😔 World");
}

#[test]
fn insert_inside_a_character_is_refused_and_changes_nothing() {
    let mut document = Document::new(Some("Hell🌍 World"));
    for index in 5..8 {
        assert_eq!(insert(&mut document, index, "x"), Err(EngineError::InvalidOffset));
        assert_eq!(get_all_text(&document), "Hell🌍 World");
        assert_eq!(document.runs(), &vec![run(0, 14, false)]);
    }
    assert_eq!(insert(&mut document, 4, "x"), Ok(()));
    assert_eq!(insert(&mut document, 9, "y"), Ok(()));
    assert_eq!(get_all_text(&document), "Hellx🌍y World");
}

#[test]
fn insert_inside_a_character_of_inserted_text_is_refused() {
    let mut document = Document::new(Some("AB"));
    assert_eq!(insert(&mut document, 1, "猫"), Ok(()));
    assert_eq!(insert(&mut document, 2, "x"), Err(EngineError::InvalidOffset));
    assert_eq!(insert(&mut document, 3, "x"), Err(EngineError::InvalidOffset));
    assert_eq!(insert(&mut document, 4, "x"), Ok(()));
    assert_eq!(get_all_text(&document), "A猫xB");
}

#[test]
fn a_sequence_of_edits_gives_each_version() {
    let mut document = Document::new(Some("Hell🌍 World"));
    assert_eq!(get_all_text(&document), "Hell🌍 World");
    assert_eq!(insert(&mut document, 14, ", again!"), Ok(()));
    assert_eq!(get_all_text(&document), "Hell🌍 World, again!");
    assert_eq!(insert(&mut document, 22, " (no really!)"), Ok(()));
    assert_eq!(get_all_text(&document), "Hell🌍 World, again! (no really!)");
    assert_eq!(insert(&mut document, 8, " to the entire"), Ok(()));
    assert_eq!(
        get_all_text(&document),
        "Hell🌍 to the entire World, again! (no really!)"
    );
}

#[test]
fn inserts_agree_with_inserts_into_a_plain_string() {
    let edits: Vec<(usize, &str)> = vec![
        (5, ","),
        (0, "> "),
        (9, "wide "),
        (9, ""),
        (3, "猫"),
        (200, " end"),
        (6, "は白"),
        (1, "-"),
        (30, "🌍"),
        (12, "z"),
    ];
    let mut document = Document::new(Some("Hello World"));
    let mut plain = String::from("Hello World");
    for (index, text) in edits {
        if plain.len() <= index || plain.is_char_boundary(index) {
            assert_eq!(insert(&mut document, index, text), Ok(()));
            plain_insert(&mut plain, index, text);
        } else {
            assert_eq!(insert(&mut document, index, text), Err(EngineError::InvalidOffset));
        }
        assert_eq!(get_all_text(&document), plain);
    }
    assert_eq!(plain, ">- H猫は白ello, wide World 🌍end");
}

#[test]
fn an_insert_leaves_what_earlier_runs_address() {
    let mut document = Document::new(Some("Hello World"));
    assert_eq!(insert(&mut document, 5, ","), Ok(()));
    assert_eq!(insert(&mut document, 0, "猫"), Ok(()));
    let runs_before: Vec<Run> = document.runs().clone();
    let texts_before = pieces(&document);
    assert_eq!(insert(&mut document, 4, " and more"), Ok(()));
    assert_eq!(insert(&mut document, 300, "."), Ok(()));
    let mut texts_after = Vec::new();
    for run in &runs_before {
        texts_after.push(get_text(&document, run).unwrap().to_string());
    }
    assert_eq!(texts_after, texts_before);
}

#[test]
fn the_runs_cover_the_document_in_order() {
    let mut document = Document::new(Some("Hello World"));
    assert_eq!(insert(&mut document, 5, ","), Ok(()));
    assert_eq!(insert(&mut document, 12, "!"), Ok(()));
    assert_eq!(insert(&mut document, 3, "猫"), Ok(()));
    let all = get_all_text(&document);
    assert_eq!(pieces(&document).concat(), all);
    let mut start = 0;
    for run in document.runs() {
        let end = start + run.length();
        assert_eq!(&all[start..end], get_text(&document, run).unwrap());
        start = end;
    }
    assert_eq!(start, all.len());
}

#[test]
fn get_text_reads_either_buffer() {
    let mut document = Document::new(Some("Hello World"));
    assert_eq!(insert(&mut document, 11, "猫は白"), Ok(()));
    assert_eq!(get_text(&document, &run(6, 11, false)), Ok("World"));
    assert_eq!(get_text(&document, &run(3, 9, true)), Ok("は白"));
    assert_eq!(get_text(&document, &run(4, 4, false)), Ok(""));
    assert_eq!(get_text(&document, &run(11, 11, false)), Ok(""));
}

#[test]
fn get_text_refuses_a_run_outside_its_buffer() {
    let mut document = Document::new(Some("Hello World"));
    assert_eq!(insert(&mut document, 11, "猫"), Ok(()));
    assert_eq!(get_text(&document, &run(0, 12, false)), Err(EngineError::CorruptRun));
    assert_eq!(get_text(&document, &run(12, 12, false)), Err(EngineError::CorruptRun));
    assert_eq!(get_text(&document, &run(0, 4, true)), Err(EngineError::CorruptRun));
    assert_eq!(get_text(&document, &run(5, 2, false)), Err(EngineError::CorruptRun));
}

#[test]
fn get_text_refuses_a_run_that_cuts_a_character() {
    let mut document = Document::new(Some("Hello World"));
    assert_eq!(insert(&mut document, 11, "猫は"), Ok(()));
    assert_eq!(get_text(&document, &run(0, 2, true)), Err(EngineError::CorruptRun));
    assert_eq!(get_text(&document, &run(1, 3, true)), Err(EngineError::CorruptRun));
    assert_eq!(get_text(&document, &run(0, 3, true)), Ok("猫"));
}

#[test]
fn length_is_the_number_of_bytes_addressed() {
    assert_eq!(run(3, 10, false).length(), 7);
    assert_eq!(run(4, 4, true).length(), 0);
    assert_eq!(run(0, usize::MAX, true).length(), usize::MAX);
}
