use docco::docmap::{merge_maps, order_comments, DocMap};
use docco::parsers::parse_src;

#[test]
fn should_aggregate_two_files_under_one_header() {
    let file1 = "/** \n# Intro\n* hello\n*/";
    let file2 = "/** \n# Intro\n* world\n*/";
    let map1 = parse_src(file1, DocMap::new(), "/**", "*/", '*');
    let map2 = parse_src(file2, DocMap::new(), "/**", "*/", '*');
    let merged = merge_maps(&vec![map1, map2]);
    let output = order_comments(merged, Vec::new());
    assert_eq!(output, vec!["# Intro", "world", "hello"]);
}

#[test]
fn should_append_repeated_header_within_one_file() {
    let src = "/**# A\n* one\n*/ mid /**# A\n* two\n*/";
    let map = parse_src(src, DocMap::new(), "/**", "*/", '*');
    assert_eq!(map.len(), 1);
    assert_eq!(map.get("# A"), Some(&vec!["one".to_owned(), "two".to_owned()]));
}

#[test]
fn should_skip_blocks_without_header_and_continue() {
    let src = "/** plain comment */ text /**# B\n* b\n*/";
    let map = parse_src(src, DocMap::new(), "/**", "*/", '*');
    assert_eq!(map.len(), 1);
    assert_eq!(map.get("# B"), Some(&vec!["b".to_owned()]));
}

#[test]
fn should_abandon_text_after_unclosed_block() {
    let src = "/**# C\n* c\n*/ tail /** open forever\n# D\n";
    let map = parse_src(src, DocMap::new(), "/**", "*/", '*');
    assert_eq!(map.len(), 1);
    assert_eq!(map.get("# C"), Some(&vec!["c".to_owned()]));
    assert_eq!(map.get("# D"), None);
}

#[test]
fn should_parse_nothing_from_plain_text() {
    let map = parse_src("fn main() {}\n", DocMap::new(), "/**", "*/", '*');
    assert_eq!(map.len(), 0);
}
