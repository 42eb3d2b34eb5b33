use epubtr::html::{
    count_translatable_text_chars, is_html_boundary_tag, parse_tag_name, split_html_into_blocks,
    tokenize_html, update_skip_depth, HtmlTokenKind,
};

#[test]
fn tokens_of_a_page() {
    let tokens = tokenize_html("a<p>b</p>c<br");
    let list: Vec<(bool, &str)> =
        tokens.iter().map(|t| (t.kind == HtmlTokenKind::Tag, t.value.as_str())).collect();
    assert_eq!(
        list,
        vec![(false, "a"), (true, "<p>"), (false, "b"), (true, "</p>"), (false, "c"), (true, "<br")]
    );
    assert!(tokenize_html("").is_empty());
}

#[test]
fn tokens_written_one_after_another_are_the_page() {
    for page in ["", "x", "<", ">", "a>b<c<d>e", "<p class='>'>ñ 中</p>", "<<>>"] {
        let joined: String = tokenize_html(page).into_iter().map(|t| t.value).collect();
        assert_eq!(joined, page);
    }
}

#[test]
fn tag_names_are_read() {
    assert_eq!(parse_tag_name("<p>"), Some(("p", false, false)));
    assert_eq!(parse_tag_name("</ DIV >"), Some(("DIV", true, false)));
    assert_eq!(parse_tag_name("< br /> "), Some(("br", false, true)));
    assert_eq!(parse_tag_name("<svg:rect-a_1 x>"), Some(("svg:rect-a_1", false, false)));
    assert_eq!(parse_tag_name("<a"), None);
    assert_eq!(parse_tag_name("<>"), None);
    assert_eq!(parse_tag_name("<!-- x -->"), None);
    assert_eq!(parse_tag_name("p>x"), None);
}

#[test]
fn script_and_style_are_nested() {
    let mut depth = 0usize;
    update_skip_depth("<SCRIPT src='x'>", &mut depth);
    assert_eq!(depth, 1);
    update_skip_depth("<style>", &mut depth);
    assert_eq!(depth, 2);
    update_skip_depth("<p>", &mut depth);
    update_skip_depth("<script/>", &mut depth);
    update_skip_depth("<!-- <script> -->", &mut depth);
    update_skip_depth("<?style ?>", &mut depth);
    assert_eq!(depth, 2);
    update_skip_depth("</style>", &mut depth);
    update_skip_depth("</script>", &mut depth);
    update_skip_depth("</script>", &mut depth);
    assert_eq!(depth, 0);
}

#[test]
fn boundary_tags() {
    for tag in ["</p>", "</P>", "</div>", "</section>", "</article>", "</li>", "</h1>", "</h4>", "</blockquote>", "</br>", "</pre>"] {
        assert!(is_html_boundary_tag(tag), "{}", tag);
    }
    for tag in ["<p>", "</h5>", "</span>", "<br/>"] {
        assert!(!is_html_boundary_tag(tag), "{}", tag);
    }
}

#[test]
fn translatable_text_is_counted() {
    let tokens = tokenize_html("<style>a{}</style><p>hola </p> <script>x<b>y</script>ñ");
    assert_eq!(count_translatable_text_chars(&tokens), 5 + 1 + 1);
}

#[test]
fn blocks_end_at_boundaries() {
    let page = "<p>aaaa</p><p>bbbb</p><p>cc</p>";
    let tokens = tokenize_html(page);
    assert_eq!(
        split_html_into_blocks(&tokens, 1, 4, 100),
        vec!["<p>aaaa</p>", "<p>bbbb</p>", "<p>cc</p>"]
    );
    assert_eq!(
        split_html_into_blocks(&tokens, 5, 1, 100),
        vec!["<p>aaaa</p><p>bbbb</p>", "<p>cc</p>"]
    );
}

#[test]
fn full_blocks_end_at_any_tag() {
    let tokens = tokenize_html("<b>aaaa</b><b>bb</b>");
    assert_eq!(split_html_into_blocks(&tokens, 100, 100, 4), vec!["<b>aaaa</b>", "<b>bb</b>"]);
    assert_eq!(split_html_into_blocks(&tokens, 100, 100, 5), vec!["<b>aaaa</b><b>bb</b>"]);
}

#[test]
fn blocks_written_one_after_another_are_the_page() {
    let page = "x <div>uno dos</div> <p>tres</p><script>cuatro</script> cinco <";
    let tokens = tokenize_html(page);
    for size in 0..12usize {
        assert_eq!(split_html_into_blocks(&tokens, size, size, size * 2).concat(), page);
    }
    assert!(split_html_into_blocks(&[], 1, 1, 1).is_empty());
}

#[test]
fn blocks_end_at_the_first_tag_that_allows_it() {
    let tokens = tokenize_html("<p>aa<b>bb</b></p><p>c</p><i>d</i>");
    assert_eq!(
        split_html_into_blocks(&tokens, 1, 3, 100),
        vec!["<p>aa<b>bb</b></p>", "<p>c</p><i>d</i>"]
    );
    assert_eq!(
        split_html_into_blocks(&tokens, 1, 3, 2),
        vec!["<p>aa<b>", "bb</b>", "</p><p>c</p><i>d</i>"]
    );
}
