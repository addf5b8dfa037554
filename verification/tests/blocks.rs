use tiny_poe2smoother::blocks::{
    empty_named_blocks, find_matching_brace, find_next_sub_block, find_top_level_block,
    skip_syntax, strip_client_blocks,
};

fn chars(text: &str) -> Vec<char> {
    text.chars().collect()
}

fn emptied(text: &str, names: &[&str]) -> String {
    empty_named_blocks(&chars(text), names).into_iter().collect()
}

fn stripped(text: &str, keep: &[&str]) -> String {
    strip_client_blocks(&chars(text), keep).into_iter().collect()
}

#[test]
fn emptying_twice_is_emptying_once() {
    for text in [
        "a { b { x } }",
        "a{ }b { \"}\" }",
        "b { /* } */ } b { b { y } } a",
        "b {\u{a0}\n} b { 1 }",
        "a { b { x }",
        "b b { [ { ] } } // b { z }\nb{z}",
        "b{'x'} } b{y} {b{z}}",
    ] {
        let once = emptied(text, &["b"]);
        assert_eq!(emptied(&once, &["b"]), once, "{text}");
    }
    assert_eq!(emptied("a { b { x } }", &["b"]), "a { b {} }");
    assert_eq!(emptied("b {\n\t}", &["b"]), "b {\n\t}");
    // A block that is not closed ends the scan.
    assert_eq!(emptied("a { b { x }", &["b"]), "a { b { x }");
}

#[test]
fn stripping_keeps_the_listed_blocks_of_the_client() {
    let text = "server { A { 1 } }\nclient { x A { 1 } B { A { 2 } } y }";
    assert_eq!(
        stripped(text, &["B"]),
        "server { A { 1 } }\nclient { x  B { A { 2 } } y }"
    );
    assert_eq!(stripped("client { A { 1 }", &[]), "client { A { 1 }");
    assert_eq!(stripped("none", &[]), "none");
}

#[test]
fn braces_in_strings_comments_and_arrays_do_not_count() {
    let text = chars("n { \"}\\\"}\" // }\n /* } */ [ } \"]\" ] { } }");
    let block = find_next_sub_block(&text, 0).unwrap();
    assert_eq!((block.start, block.name_end, block.open), (0, 1, 2));
    assert_eq!(find_matching_brace(&text, block.open), Some(text.len() - 1));
    assert_eq!(find_top_level_block(&text, &['n']), Some(2));
    assert_eq!(find_top_level_block(&text, &['m']), None);
    assert_eq!(skip_syntax(&chars("\"a\\\"b\"c"), 0), 6);
    assert_eq!(skip_syntax(&chars("// a\nb"), 0), 5);
    assert_eq!(skip_syntax(&chars("/* a"), 0), 4);
    assert_eq!(skip_syntax(&chars("[[]x]y"), 0), 5);
    assert_eq!(skip_syntax(&chars("ab"), 0), 1);
}

#[test]
fn what_is_not_closed_stays_once() {
    assert_eq!(stripped("client { a { x }", &["a"]), "client { a { x }");
    assert_eq!(stripped("client { b { x } }", &[]).matches('x').count(), 0);
}
