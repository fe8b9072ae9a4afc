use lib::lexer::{lexerize, LexStop};

#[test]
fn lexes_country_sentence_up_to_semicolon() {
    let out = lexerize(b"country:Russia:17|region:Msk:10;ignored");
    assert_eq!(
        out.text,
        "String-country\nDelimeter-:\nString-Russia\nDelimeter-:\nNumber-17\nDelimeter-|\nString-region\nDelimeter-:\nString-Msk\nDelimeter-:\nNumber-10\n"
    );
    assert_eq!(out.stop, LexStop::Semicolon);
}

#[test]
fn lexes_runs_of_letters_and_digits_to_the_end() {
    let out = lexerize(b"ab12cd");
    assert_eq!(out.text, "String-ab\nNumber-12\nString-cd\n");
    assert_eq!(out.stop, LexStop::EndOfInput);
}

#[test]
fn stops_at_unrecognized_byte_after_writing_pending_lexem() {
    let out = lexerize(b"ab 12");
    assert_eq!(out.text, "String-ab\n");
    assert_eq!(out.stop, LexStop::Unrecognized);
}

#[test]
fn newline_is_unrecognized() {
    let out = lexerize(b"12\n");
    assert_eq!(out.text, "Number-12\n");
    assert_eq!(out.stop, LexStop::Unrecognized);
}

#[test]
fn empty_input_gives_empty_table() {
    let out = lexerize(b"");
    assert_eq!(out.text, "");
    assert_eq!(out.stop, LexStop::EndOfInput);
}

#[test]
fn semicolon_writes_pending_number() {
    let out = lexerize(b"12;34");
    assert_eq!(out.text, "Number-12\n");
    assert_eq!(out.stop, LexStop::Semicolon);
}

#[test]
fn delimiters_each_make_a_lexem() {
    let out = lexerize(b"||:a");
    assert_eq!(out.text, "Delimeter-|\nDelimeter-|\nDelimeter-:\nString-a\n");
    assert_eq!(out.stop, LexStop::EndOfInput);
}

#[test]
fn dash_is_unrecognized() {
    let out = lexerize(b"a-b");
    assert_eq!(out.text, "String-a\n");
    assert_eq!(out.stop, LexStop::Unrecognized);
}

#[test]
fn table_lines_read_back_as_kind_and_value() {
    let out = lexerize(b"country:A12|b;zz");
    let lines: Vec<&str> = out.text.split('\n').collect();
    assert_eq!(lines.last(), Some(&""));
    let fields: Vec<Vec<&str>> = lines[..lines.len() - 1].iter().map(|l| l.split('-').collect()).collect();
    assert_eq!(
        fields,
        vec![
            vec!["String", "country"],
            vec!["Delimeter", ":"],
            vec!["String", "A"],
            vec!["Number", "12"],
            vec!["Delimeter", "|"],
            vec!["String", "b"],
        ]
    );
    let values: String = fields.iter().map(|f| f[1]).collect();
    assert_eq!(values, "country:A12|b");
}
