use tbb::markdown::{code_blocks, for_each_code_block, rewrite, rewrite_blocks, splice};

const MARKDOWN: &str = "Hello, World\n\
\n\
```console\n\
abcdef\n\
abcdef\n\
```\n\
\n\
> Quote **bold**\n\
\n\
```\n\
language not declared correctly,\n\
should be ignored\n\
```\n\
\n\
```console\n\
123456\n\
123456\n\
```\n";

const MARKDOWN_AFTER_REWRITE: &str = "Hello, World\n\
\n\
```console\n\
abcdef\
```\n\
\n\
> Quote **bold**\n\
\n\
```\n\
language not declared correctly,\n\
should be ignored\n\
```\n\
\n\
```console\n\
123456\
```\n";

#[test]
fn test_check_correctness() {
    for_each_code_block(MARKDOWN, |str| {
        assert!(str == "abcdef\nabcdef\n" || str == "123456\n123456\n");
    });
}

#[test]
fn test_rewrite() {
    let output = rewrite(MARKDOWN, |str| str.lines().last().unwrap().to_owned());
    assert_eq!(output, Some(MARKDOWN_AFTER_REWRITE.to_string()));
}

#[test]
fn code_blocks_lists_console_blocks_only() {
    assert_eq!(code_blocks(MARKDOWN), vec!["abcdef\nabcdef\n".to_string(), "123456\n123456\n".to_string()]);
    assert_eq!(code_blocks("no code here\n"), Vec::<String>::new());
    assert_eq!(code_blocks("```rust\nfn f() {}\n```\n"), Vec::<String>::new());
}

#[test]
fn rewrite_blocks_needs_one_output_per_block() {
    assert_eq!(rewrite_blocks(MARKDOWN, &vec!["x".to_string()]), None);
    let out = rewrite_blocks(MARKDOWN, &vec!["one\n".to_string(), "two\n".to_string()]).unwrap();
    assert!(out.contains("```console\none\n```"));
    assert!(out.contains("```console\ntwo\n```"));
    assert!(out.contains("should be ignored"));
}

#[test]
fn splice_replaces_ranges_in_order() {
    let src = b"0123456789";
    let out = splice(src, &vec![(1, 3), (5, 5), (8, 10)], &vec![b"ab".to_vec(), b"X".to_vec(), vec![]]);
    assert_eq!(out, Some(b"0ab34X567".to_vec()));
    assert_eq!(splice(src, &vec![(3, 5), (4, 6)], &vec![vec![], vec![]]), None);
    assert_eq!(splice(src, &vec![(3, 11)], &vec![vec![]]), None);
    assert_eq!(splice(src, &vec![(3, 4)], &vec![]), None);
}

#[test]
fn for_each_code_block_visits_blocks_in_order() {
    let seen = std::cell::RefCell::new(Vec::new());
    for_each_code_block(MARKDOWN, |s| seen.borrow_mut().push(s.to_string()));
    assert_eq!(seen.into_inner(), vec!["abcdef\nabcdef\n".to_string(), "123456\n123456\n".to_string()]);
}
