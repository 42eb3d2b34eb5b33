use epubtr::content::{finish_text_node, plan_text_node, ChunkSizes, TextNodePlan};

fn texts(plan: &TextNodePlan) -> Vec<String> {
    plan.pieces.iter().map(|p| p.text.clone()).collect()
}

#[test]
fn blank_nodes_are_kept() {
    let plan = plan_text_node(" \n ", None, None, "Traduciendo", 0);
    assert!(plan.pieces.is_empty());
    assert_eq!((plan.consumed, plan.exhausted), (0, false));
    assert_eq!(finish_text_node(&plan, &vec![]), " \n ");
}

#[test]
fn white_space_stays_around_a_node() {
    let plan = plan_text_node("\n  Hola mundo ", None, None, "Traduciendo", 7);
    assert_eq!(plan.pieces.len(), 1);
    assert_eq!(plan.pieces[0].text, "Hola mundo");
    assert_eq!(plan.pieces[0].label, "Traduciendo");
    assert_eq!((plan.pieces[0].done_before, plan.pieces[0].done_after), (7, None));
    assert_eq!((plan.consumed, plan.exhausted), (10, false));
    assert_eq!(finish_text_node(&plan, &vec!["Hello".to_string()]), "\n  Hello ");
}

#[test]
fn a_used_up_budget_keeps_the_node() {
    let plan = plan_text_node(" Hola ", Some(0), None, "x", 0);
    assert!(plan.pieces.is_empty() && plan.exhausted);
    assert_eq!(plan.consumed, 0);
    assert_eq!(finish_text_node(&plan, &vec![]), " Hola ");
}

#[test]
fn a_small_budget_cuts_the_node() {
    let plan = plan_text_node(" año nuevo ", Some(3), None, "x", 0);
    assert_eq!(texts(&plan), vec!["año"]);
    assert_eq!((plan.consumed, plan.exhausted), (3, true));
    assert_eq!(finish_text_node(&plan, &vec!["year".to_string()]), " year nuevo ");
}

#[test]
fn a_large_enough_budget_does_not_cut() {
    let plan = plan_text_node(" año ", Some(3), None, "x", 0);
    assert_eq!(texts(&plan), vec!["año"]);
    assert_eq!((plan.consumed, plan.exhausted), (3, false));
}

#[test]
fn long_nodes_are_cut_into_chunks() {
    let sizes = ChunkSizes { min: 1, target: 4, max: 9 };
    let plan = plan_text_node(" Uno. Dos. ", None, Some(sizes), "Traduciendo", 5);
    assert_eq!(texts(&plan), vec!["Uno.", " Dos."]);
    assert_eq!(plan.pieces[0].label, "Traduciendo (fragmento 1/2)");
    assert_eq!(plan.pieces[1].label, "Traduciendo (fragmento 2/2)");
    assert_eq!((plan.pieces[0].done_before, plan.pieces[0].done_after), (5, Some(9)));
    assert_eq!((plan.pieces[1].done_before, plan.pieces[1].done_after), (9, Some(14)));
    assert_eq!(plan.consumed, 9);
}

#[test]
fn one_chunk_has_a_plain_label() {
    let sizes = ChunkSizes { min: 1, target: 90, max: 99 };
    let plan = plan_text_node("Uno. Dos.", None, Some(sizes), "Traduciendo", 0);
    assert_eq!(plan.pieces[0].label, "Traduciendo");
    assert_eq!(plan.pieces[0].done_after, Some(9));
    let none = ChunkSizes { min: 0, target: 0, max: 0 };
    let plan = plan_text_node("Uno. Dos.", None, Some(none), "Traduciendo", 0);
    assert_eq!(texts(&plan), vec!["Uno. Dos."]);
}

#[test]
fn unchanged_pieces_give_the_node_back() {
    let node = "\t Uno. Dos! Tres? Cuatro \n";
    for max in 0..12usize {
        for budget in [None, Some(0usize), Some(5), Some(50)] {
            let sizes = ChunkSizes { min: 1, target: max / 2, max };
            let plan = plan_text_node(node, budget, Some(sizes), "x", 0);
            assert_eq!(finish_text_node(&plan, &texts(&plan)), node);
        }
    }
}

#[test]
fn blank_chunks_are_not_sent() {
    let sizes = ChunkSizes { min: 1, target: 4, max: 6 };
    let plan = plan_text_node("Uno.\nabcdefgh", None, Some(sizes), "x", 0);
    assert_eq!(texts(&plan), vec!["Uno.", "\n", "abcdef", "gh"]);
    let sent: Vec<bool> = plan.pieces.iter().map(|p| p.sent).collect();
    assert_eq!(sent, vec![true, false, true, true]);
}
