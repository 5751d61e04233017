use kenny::trivia::{read_questions, ParseError, RowError};

#[test]
fn round_trip_count_and_order() {
    let src = b"category,question,answer\n\
        Science,What planet is red?,Mars\n\
        History,Who wrote the Iliad?,Homer\n\
        Math,What is 2+2?,4\n";
    let qs = read_questions(src).unwrap();
    assert_eq!(qs.len(), 3);
    assert_eq!(qs[0].category, "Science");
    assert_eq!(qs[1].category, "History");
    assert_eq!(qs[2].category, "Math");
}

#[test]
fn empty_corpus() {
    let qs = read_questions(b"category,question,answer\n").unwrap();
    assert_eq!(qs.len(), 0);
}

#[test]
fn empty_corpus_without_trailing_newline() {
    let qs = read_questions(b"category,question,answer").unwrap();
    assert_eq!(qs.len(), 0);
}

#[test]
fn field_fidelity() {
    let src = b"category,question,answer\nScience,What planet is red?,Mars\n";
    let qs = read_questions(src).unwrap();
    assert_eq!(qs.len(), 1);
    assert_eq!(qs[0].category, "Science");
    assert_eq!(qs[0].question, "What planet is red?");
    assert_eq!(qs[0].answer, "Mars");
}

#[test]
fn rejects_row_with_missing_field() {
    let src = b"category,question,answer\nScience,Mars\n";
    let r = read_questions(src);
    assert_eq!(
        r.unwrap_err(),
        ParseError::Row { row: 1, cause: RowError::WrongFieldCount }
    );
}

#[test]
fn rejects_row_with_extra_field() {
    let src = b"category,question,answer\nScience,What planet is red?,Mars,extra\n";
    let r = read_questions(src);
    assert_eq!(
        r.unwrap_err(),
        ParseError::Row { row: 1, cause: RowError::WrongFieldCount }
    );
}

#[test]
fn rejects_row_with_empty_field() {
    let src = b"category,question,answer\nScience,,Mars\n";
    let r = read_questions(src);
    assert_eq!(
        r.unwrap_err(),
        ParseError::Row { row: 1, cause: RowError::EmptyField }
    );
}

#[test]
fn rejects_field_that_is_not_text() {
    let src: Vec<u8> = [
        b"category,question,answer\n".to_vec(),
        vec![0xff, 0xfe],
        b",What planet is red?,Mars\n".to_vec(),
    ]
    .concat();
    let r = read_questions(&src);
    assert_eq!(
        r.unwrap_err(),
        ParseError::Row { row: 1, cause: RowError::InvalidUtf8 }
    );
}

#[test]
fn missing_header_is_an_error() {
    let r = read_questions(b"");
    assert_eq!(r.unwrap_err(), ParseError::MissingHeader);
}

#[test]
fn reports_first_bad_row() {
    let src = b"category,question,answer\n\
        Science,What planet is red?,Mars\n\
        History,Homer\n\
        Math,,4\n";
    let r = read_questions(src);
    assert_eq!(
        r.unwrap_err(),
        ParseError::Row { row: 2, cause: RowError::WrongFieldCount }
    );
}

#[test]
fn rejects_empty_line_between_rows() {
    let src = b"category,question,answer\n\nScience,What planet is red?,Mars\n";
    let r = read_questions(src);
    assert_eq!(
        r.unwrap_err(),
        ParseError::Row { row: 1, cause: RowError::WrongFieldCount }
    );
}

#[test]
fn strips_carriage_returns() {
    let src = b"category,question,answer\r\nScience,What planet is red?,Mars\r\n";
    let qs = read_questions(src).unwrap();
    assert_eq!(qs.len(), 1);
    assert_eq!(qs[0].category, "Science");
    assert_eq!(qs[0].answer, "Mars");
}

#[test]
fn keeps_text_beyond_ascii() {
    let src = "category,question,answer\nGéo,Où est Paris ?,France\n".as_bytes();
    let qs = read_questions(src).unwrap();
    assert_eq!(qs.len(), 1);
    assert_eq!(qs[0].category, "Géo");
    assert_eq!(qs[0].question, "Où est Paris ?");
}
