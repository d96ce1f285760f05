use wiki_search::textify::textify;

fn assert_textify(source: &str, expected: &str) {
    let actual = textify(source);
    assert_eq!(actual, expected);
}

#[test]
fn test_textify() {
    assert_textify("{{a|b=c|d=e}}", "{{a|b=c|d=e}}");
    assert_textify("{{a|b|c}}", "{{a|b|c}}");
    assert_textify("''hello''", "''hello''");
    assert_textify("'''hello'''", "'''hello'''");
    assert_textify("'''''hello'''''", "'''''hello'''''");
    assert_textify("'''''hello'''''", "'''''hello'''''");

    assert_textify("= a =\nb\n\n= c =\nd", "= a = b  = c = d");
}

#[test]
fn textify_template_roundtrip() {
    assert_eq!(textify("{{a|b=c}}"), "{{a|b=c}}");
    assert_eq!(textify(""), "");
}

#[test]
fn textify_strips_tags_and_collapses_whitespace() {
    assert_eq!(textify("a<div>b</div>c"), "abc");
    assert_eq!(textify("one\ntwo"), "one two");
}

#[test]
fn textify_entities_decode() {
    assert_eq!(textify("a&amp;b"), "a&b");
    assert_eq!(textify("x&lt;y"), "x<y");
}

#[test]
fn textify_link_and_image() {
    assert_eq!(textify("[[Target|shown]]"), "shown(Target)");
    assert_eq!(textify("see [[Category:Stuff]] here"), "see  here");
}

#[test]
fn textify_images() {
    assert_eq!(textify("[[File:Cat.jpg|a cat]]"), "IMAGE: Cat.jpg a cat");
    assert_eq!(textify("[[Image:Dog.png]]"), "IMAGE: Dog.png ");
}

#[test]
fn textify_redirect() {
    assert_eq!(textify("#REDIRECT [[Main Page]]"), "REDIRECT: Main Page");
}

#[test]
fn textify_table() {
    assert_eq!(
        textify("{|\n|+Cap\n|-\n|a||b\n|}"),
        "Cap a | b "
    );
}

#[test]
fn textify_paragraph_before_heading_keeps_separator() {
    assert_eq!(textify("b\n= c ="), "b = c = ");
}

#[test]
fn textify_list_items() {
    assert_eq!(textify("* one\n* two"), "one two ");
}
