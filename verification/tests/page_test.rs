use epubtr::options::{recovery_options, run_options, BlockSizes, TranslationChunkOptions};
use epubtr::page::{plan_content, plan_recovery, ContentMode, ContentRun};

fn options(preview: bool) -> TranslationChunkOptions {
    run_options("deepseek", "", preview, None, BlockSizes { min: 8_000, target: 9_000, max: 10_000 })
}

fn preview_run(html: &str, budget: usize) -> ContentRun {
    match plan_content(html, Some(budget), &options(true), Some("c.xhtml")) {
        ContentMode::TextNodes(run) => run,
        ContentMode::Blocks => panic!("blocks"),
    }
}

fn translate(run: &mut ContentRun, f: fn(&str) -> String) -> (String, usize) {
    while let Some(plan) = run.next_node() {
        let out: Vec<String> = plan.pieces.iter().map(|p| f(&p.text)).collect();
        run.accept(&plan, &out);
    }
    run.finish()
}

#[test]
fn markup_and_scripts_stay() {
    let html = "<h1> uno </h1>\n<script>dos</script><style>x</style><p>tres</p>";
    let mut run = preview_run(html, 1_000);
    assert_eq!(run.total_text_chars(), 5 + 1 + 4);
    let (page, consumed) = translate(&mut run, |t| t.to_uppercase());
    assert_eq!(page, "<h1> UNO </h1>\n<script>dos</script><style>x</style><p>TRES</p>");
    assert_eq!(consumed, 7);
    assert_eq!(run.consumed_chars(), 7);
}

#[test]
fn the_budget_ends_a_preview() {
    let mut run = preview_run("<p>uno</p><p>dos</p><p>tres</p>", 5);
    let (page, consumed) = translate(&mut run, |t| t.to_uppercase());
    assert_eq!(page, "<p>UNO</p><p>DOs</p><p>tres</p>");
    assert_eq!(consumed, 5);
}

#[test]
fn labels_name_the_file() {
    let mut run = preview_run("uno", 5);
    let plan = run.next_node().unwrap();
    assert_eq!(plan.pieces[0].label, "Traduciendo c.xhtml");
}

#[test]
fn unchanged_text_gives_the_page_back() {
    let html = "a <b>c</b> <!-- d --> e<script>f</script>";
    let mut run = preview_run(html, 100);
    assert_eq!(translate(&mut run, |t| t.to_string()).0, html);
}

#[test]
fn failures_end_a_preview() {
    let mut run = preview_run("<p>uno</p>", 100);
    run.next_node().unwrap();
    assert_eq!(run.on_failure("Error de red: x".to_string()), Err("Error de red: x".to_string()));
}

#[test]
fn failures_are_kept_in_a_whole_book() {
    let mut whole = options(false);
    whole.force_text_node_mode = true;
    let mut run = match plan_content("<p>uno</p><p>dos</p>", None, &whole, None) {
        ContentMode::TextNodes(run) => run,
        ContentMode::Blocks => panic!("blocks"),
    };
    let plan = run.next_node().unwrap();
    assert_eq!(plan.pieces[0].label, "Traduciendo");
    assert_eq!(run.on_failure("x".to_string()), Ok(()));
    let (page, consumed) = translate(&mut run, |t| t.to_uppercase());
    assert_eq!(page, "<p>uno</p><p>DOS</p>");
    assert_eq!(consumed, 3);
}

#[test]
fn whole_books_are_sent_in_blocks() {
    assert!(matches!(plan_content("<p>x</p>", None, &options(false), None), ContentMode::Blocks));
    assert!(!matches!(plan_content("<p>x</p>", Some(1), &options(false), None), ContentMode::Blocks));
    assert!(!matches!(plan_content("<p>x</p>", None, &options(true), None), ContentMode::Blocks));
}

#[test]
fn long_pages_are_cut_into_chunks() {
    let mut whole = options(false);
    whole.force_text_node_mode = true;
    let latin = "Una frase corta. ".repeat(700);
    let han = format!("{}中", latin);
    let mut run = match plan_content(&latin, None, &whole, None) {
        ContentMode::TextNodes(run) => run,
        ContentMode::Blocks => panic!("blocks"),
    };
    assert_eq!(run.next_node().unwrap().pieces.len(), 1);
    let mut run = match plan_content(&han, None, &whole, None) {
        ContentMode::TextNodes(run) => run,
        ContentMode::Blocks => panic!("blocks"),
    };
    assert!(run.next_node().unwrap().pieces.len() > 1);
}

#[test]
fn recovery_goes_node_by_node() {
    let recovery = recovery_options("deepseek", "");
    assert!(plan_recovery("<p></p><script>x</script>", &recovery).is_none());
    let block = format!("<p>{}</p>", "Una frase. ".repeat(200));
    let mut run = plan_recovery(&block, &recovery).unwrap();
    let plan = run.next_node().unwrap();
    assert!(plan.pieces.len() > 1);
    assert!(plan.pieces[0].label.starts_with("Recuperando bloque truncado (fragmento 1/"));
    assert!(plan.pieces.iter().all(|p| p.text.chars().count() <= 1_800));
    let texts: Vec<String> = plan.pieces.iter().map(|p| p.text.clone()).collect();
    run.accept(&plan, &texts);
    assert!(run.next_node().is_none());
    assert_eq!(run.finish().0, block);
}

#[test]
fn a_budget_that_covers_the_page_is_never_used_up() {
    let html = "<h1> uno </h1>\n<script>dos</script><p>tres</p>";
    let total = preview_run(html, 0).total_text_chars();
    assert_eq!(total, 10);
    for budget in total..total + 3 {
        let (page, consumed) = translate(&mut preview_run(html, budget), |t| t.to_uppercase());
        assert_eq!(page, "<h1> UNO </h1>\n<script>dos</script><p>TRES</p>");
        assert_eq!(consumed, 7);
    }
    let (page, consumed) = translate(&mut preview_run(html, 6), |t| t.to_uppercase());
    assert_eq!(page, "<h1> UNO </h1>\n<script>dos</script><p>TREs</p>");
    assert_eq!(consumed, 6);
}
