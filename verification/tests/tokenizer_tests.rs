use bm25_index::tokenizer::{split_path, tokenize};

fn strings(items: &[&str]) -> Vec<String> {
    items.iter().map(|s| s.to_string()).collect()
}

#[test]
fn split_path_separates_components() {
    assert_eq!(split_path("a/b"), strings(&["a", "b"]));
    assert_eq!(split_path("src/lib/mod.rs"), strings(&["src", "lib", "mod.rs"]));
}

#[test]
fn split_path_without_delimiter_is_one_term() {
    assert_eq!(split_path("README.md"), strings(&["README.md"]));
}

#[test]
fn split_path_of_empty_item_is_one_empty_term() {
    assert_eq!(split_path(""), strings(&[""]));
}

#[test]
fn split_path_keeps_empty_terms() {
    assert_eq!(split_path("/a//b/"), strings(&["", "a", "", "b", ""]));
    assert_eq!(split_path("/"), strings(&["", ""]));
    assert_eq!(split_path("dir/"), strings(&["dir", ""]));
}

#[test]
fn split_path_agrees_with_std_split() {
    for item in ["a/b/c", "", "/", "//", "x", "é/ü/日本語", "a/b/", "/lead"] {
        let expected: Vec<String> = item.split('/').map(|s| s.to_string()).collect();
        assert_eq!(split_path(item), expected);
    }
}

#[test]
fn split_path_is_case_sensitive_and_exact() {
    assert_eq!(split_path("A/a"), strings(&["A", "a"]));
}

#[test]
fn tokenize_concatenates_in_input_order() {
    assert_eq!(tokenize(&strings(&["a/b", "c"])), strings(&["a", "b", "c"]));
    assert_eq!(tokenize(&strings(&["c", "a/b", "a"])), strings(&["c", "a", "b", "a"]));
}

#[test]
fn tokenize_of_no_items_is_empty() {
    assert_eq!(tokenize(&Vec::new()), Vec::<String>::new());
}

#[test]
fn tokenize_joined_entry_names() {
    let mut joined = String::new();
    for name in ["dir/file.txt", "other"] {
        joined.push_str(name);
        joined.push('/');
    }
    assert_eq!(tokenize(&vec![joined]), strings(&["dir", "file.txt", "other", ""]));
}

#[test]
fn split_path_joined_again_is_the_item() {
    for item in ["a/b/c", "", "/", "//x//", "plain", "ä/b", "trailing/", "日本/語/"] {
        assert_eq!(split_path(item).join("/"), item);
    }
}

#[test]
fn split_path_has_one_term_more_than_delimiters() {
    for item in ["a/b/c", "", "/", "//x//", "plain", "ä/b/", "日本/語"] {
        let delimiters = item.chars().filter(|c| *c == '/').count();
        let terms = split_path(item);
        assert_eq!(terms.len(), delimiters + 1);
        assert!(terms.iter().all(|t| !t.contains('/')));
    }
}

#[test]
fn split_path_of_long_item() {
    let item = "segment/".repeat(500);
    let terms = split_path(&item);
    assert_eq!(terms.len(), 501);
    assert!(terms[..500].iter().all(|t| t == "segment"));
    assert_eq!(terms[500], "");
}
