use docco::extractors::{discard, extract_comment_block, extract_comments_from_block, LocateError};
use docco::models::matches_extension;
use docco::parsers::{find_header, HeaderError};

#[test]
fn should_remove_all_the_code_leading_to_a_doc_block() {
    let src = "this is some random code [\n* this is a random piece\n* of doc block\n]\nwith extra\ncode after that";
    assert_eq!(
        discard(src, "["),
        Ok("[\n* this is a random piece\n* of doc block\n]\nwith extra\ncode after that")
    );
}

#[test]
fn should_return_an_error_if_no_doc_block_found() {
    let src = "this is some random code [\n* this is a random piece\n* of non-doc block\n]\nwith extra\ncode after that";
    assert_eq!(discard(src, "/**"), Err(LocateError::BlockNotFound));
}

#[test]
fn should_extract_block_between_delimiters() {
    let result = extract_comment_block("prefix/**body*/suffix", "/**", "*/");
    assert_eq!(result, Ok(("suffix", "body")));
}

#[test]
fn should_fail_extraction_without_start_delimiter() {
    let result = extract_comment_block("no delimiters here", "/**", "*/");
    assert_eq!(result, Err(LocateError::BlockNotFound));
}

#[test]
fn should_fail_extraction_on_unclosed_block() {
    let result = extract_comment_block("code /** open but never closed", "/**", "*/");
    assert_eq!(result, Err(LocateError::UnterminatedBlock));
}

#[test]
fn should_find_first_header_line() {
    let result = find_header("lead text\n# Title\nbody line\n");
    assert_eq!(result, Ok(("body line\n", "# Title".to_owned())));
}

#[test]
fn should_find_header_on_last_line() {
    let result = find_header("x# Hdr");
    assert_eq!(result, Ok(("", "# Hdr".to_owned())));
}

#[test]
fn should_fail_header_extraction_without_hash() {
    assert_eq!(find_header("just text\nno header\n"), Err(HeaderError::NoHeader));
}

#[test]
fn should_normalize_lines_by_stripping_delimiter_and_spaces() {
    let block = "* line one\n*   line two\nno-marker line";
    let result = extract_comments_from_block(block, '*');
    assert_eq!(result, vec!["line one", "line two", "no-marker line"]);
}

#[test]
fn should_keep_empty_lines_and_drop_no_trailing_line() {
    let result = extract_comments_from_block("* a\n\n", '*');
    assert_eq!(result, vec!["a".to_owned(), "".to_owned()]);
    assert_eq!(extract_comments_from_block("", '*'), Vec::<String>::new());
}

#[test]
fn should_match_file_extensions_by_suffix() {
    assert_eq!(matches_extension("main.rs", ".rs"), true);
    assert_eq!(matches_extension("main.rs", ".js"), false);
    assert_eq!(matches_extension("rs", "main.rs"), false);
    assert_eq!(matches_extension("lib.rs", ""), true);
}
