use treematch::{apply_edit, apply_edits, Edit, Error, Pattern, Replacer, Root};

#[test]
fn test_is_leaf() {
    let root = Root::new("let a = 123").unwrap();
    let node = root.root();
    assert!(!node.is_leaf());
}

#[test]
fn test_children() {
    let root = Root::new("let a = 123").unwrap();
    let node = root.root();
    let children = node.children();
    assert_eq!(children.len(), 1);
    let texts: Vec<String> = children[0]
        .children()
        .iter()
        .map(|c| c.text().unwrap().to_string())
        .collect();
    assert_eq!(texts, vec!["let".to_string(), "a = 123".to_string()]);
}

#[test]
fn test_parse_shape() {
    let root = Root::new("let a = 123").unwrap();
    let node = root.root();
    assert_eq!(node.kind(), "program");
    assert!(!node.is_leaf());
    assert_eq!(node.text().unwrap(), "let a = 123");
    let stmt = node.children()[0];
    let parts = stmt.children();
    assert_eq!(parts.len(), 2);
    assert_eq!(parts[0].text().unwrap(), "let");
    assert_eq!(parts[1].text().unwrap(), "a = 123");
}

#[test]
fn test_navigation() {
    let root = Root::new("let a = 123").unwrap();
    let node = root.root();
    assert!(node.parent().is_none());
    assert!(node.prev().is_none());
    assert!(node.next().is_none());
    let stmt = node.children()[0];
    assert_eq!(stmt.parent().unwrap().id, node.id);
    let parts = stmt.children();
    let kw = parts[0];
    let decl = parts[1];
    assert_eq!(kw.next().unwrap().id, decl.id);
    assert_eq!(decl.prev().unwrap().id, kw.id);
    assert!(kw.prev().is_none());
    assert!(decl.next().is_none());
    let after = kw.next_all();
    assert_eq!(after.len(), 1);
    assert_eq!(after[0].id, decl.id);
    let name = decl.children()[0];
    assert_eq!(name.text().unwrap(), "a");
    let ups = name.ancestors();
    assert_eq!(ups.len(), 3);
    assert_eq!(ups[0].id, decl.id);
    assert_eq!(ups[1].id, stmt.id);
    assert_eq!(ups[2].id, node.id);
    assert!(ups[2].parent().is_none());
}

#[test]
fn test_kind_ids_agree_across_parses() {
    let one = Root::new("let a = 123").unwrap();
    let two = Root::new("let b = 456").unwrap();
    assert_eq!(one.root().kind_id(), two.root().kind_id());
    assert_eq!(one.root().kind(), two.root().kind());
}

#[test]
fn test_literal_pattern_matches_same_text() {
    let root = Root::new("let a = 123").unwrap();
    let pat = Pattern::new("let a = 123").unwrap();
    let hit = root.root().find(&pat);
    assert!(hit.is_some());
    assert_eq!(hit.unwrap().text().unwrap(), "let a = 123");
}

#[test]
fn test_literal_pattern_rejects_other_text() {
    let root = Root::new("let a = 123").unwrap();
    let pat = Pattern::new("let b = 123").unwrap();
    assert!(root.root().find(&pat).is_none());
}

#[test]
fn test_metavariable_bindings() {
    let root = Root::new("let a = 123").unwrap();
    let pat = Pattern::new("let $X = $Y").unwrap();
    let node = root.root().find(&pat).unwrap();
    assert_eq!(node.text().unwrap(), "let a = 123");
    let env = pat.match_one(&node).unwrap();
    let x = env.get("X").unwrap();
    let y = env.get("Y").unwrap();
    assert_eq!(root.node(x).unwrap().text().unwrap(), "a");
    assert_eq!(root.node(y).unwrap().text().unwrap(), "123");
    assert!(env.get("Z").is_none());
}

#[test]
fn test_replace_swaps_captures() {
    let root = Root::new("let a = 123").unwrap();
    let replacer = Replacer::new("let $Y = $X");
    let edit = root
        .root()
        .replace("let $X = $Y", &replacer)
        .unwrap()
        .unwrap();
    assert_eq!(edit.position, 0);
    assert_eq!(edit.deleted_length, 11);
    assert_eq!(edit.inserted_text, "let 123 = a");
}

#[test]
fn test_nonlinear_pattern_fails_on_different_text() {
    let root = Root::new("let a = 123").unwrap();
    let pat = Pattern::new("let $X = $X").unwrap();
    assert!(root.root().find(&pat).is_none());
}

#[test]
fn test_nonlinear_pattern_succeeds_on_equal_text() {
    let root = Root::new("let a = a").unwrap();
    let pat = Pattern::new("let $X = $X").unwrap();
    let node = root.root().find(&pat).unwrap();
    assert_eq!(node.text().unwrap(), "let a = a");
    let env = pat.match_one(&node).unwrap();
    let x = env.get("X").unwrap();
    assert_eq!(root.node(x).unwrap().text().unwrap(), "a");
}

#[test]
fn test_metavariable_matches_any_node() {
    let root = Root::new("let a = 123").unwrap();
    let pat = Pattern::new("$WHOLE").unwrap();
    let node = root.root().find(&pat).unwrap();
    assert_eq!(node.id, root.root().id);
}

#[test]
fn test_find_all_in_preorder() {
    let root = Root::new("let a = 1\nlet b = 2").unwrap();
    let pat = Pattern::new("let $X = $Y").unwrap();
    let hits = root.root().find_all(&pat);
    assert_eq!(hits.len(), 2);
    assert_eq!(hits[0].text().unwrap(), "let a = 1");
    assert_eq!(hits[1].text().unwrap(), "let b = 2");
    let first = root.root().find(&pat).unwrap();
    assert_eq!(first.id, hits[0].id);
}

#[test]
fn test_variadic_absorbs_many_children() {
    let root = Root::new("f(1, 2, 3)").unwrap();
    let pat = Pattern::new("f($$$)").unwrap();
    let node = root.root().find(&pat).unwrap();
    assert_eq!(node.text().unwrap(), "f(1, 2, 3)");
}

#[test]
fn test_variadic_absorbs_zero_children() {
    let root = Root::new("f()").unwrap();
    let pat = Pattern::new("f($$$)").unwrap();
    assert!(root.root().find(&pat).is_some());
}

#[test]
fn test_variadic_still_checks_literals() {
    let root = Root::new("g(1)").unwrap();
    let pat = Pattern::new("f($$$)").unwrap();
    assert!(root.root().find(&pat).is_none());
}

#[test]
fn test_pattern_syntax_error() {
    match Pattern::new("let ((((") {
        Err(Error::PatternSyntax) => {}
        other => panic!("expected a syntax failure, got {:?}", other.is_ok()),
    }
}

#[test]
fn test_unbound_capture_error() {
    let root = Root::new("let a = 123").unwrap();
    let replacer = Replacer::new("let $Z = $X");
    match root.root().replace("let $X = $Y", &replacer) {
        Err(Error::UnboundCapture) => {}
        _ => panic!("expected an unbound capture failure"),
    }
}

#[test]
fn test_apply_edit_splices_exactly() {
    let root = Root::new("f()\nlet a = 123\ng()").unwrap();
    let replacer = Replacer::new("let $Y = $X");
    let edit = root
        .root()
        .replace("let $X = $Y", &replacer)
        .unwrap()
        .unwrap();
    assert_eq!(edit.position, 4);
    assert_eq!(edit.deleted_length, 11);
    let out = apply_edit(&root.src, &edit).unwrap();
    assert_eq!(out.text, "f()\nlet 123 = a\ng()");
    let reparsed = Root::new(&out.text).unwrap();
    assert!(reparsed.root().text().unwrap().contains("let 123 = a"));
    assert!(!reparsed.root().text().unwrap().contains("let a = 123"));
}

#[test]
fn test_apply_edit_growing_and_shrinking() {
    let src = treematch::SourceText::new("abcdef");
    let grow = Edit {
        position: 2,
        deleted_length: 1,
        inserted_text: String::from("XYZ"),
    };
    assert_eq!(apply_edit(&src, &grow).unwrap().text, "abXYZdef");
    let shrink = Edit {
        position: 1,
        deleted_length: 4,
        inserted_text: String::from(""),
    };
    assert_eq!(apply_edit(&src, &shrink).unwrap().text, "af");
    let equal = Edit {
        position: 0,
        deleted_length: 2,
        inserted_text: String::from("ZZ"),
    };
    assert_eq!(apply_edit(&src, &equal).unwrap().text, "ZZcdef");
}

#[test]
fn test_apply_edit_out_of_range_conflicts() {
    let src = treematch::SourceText::new("abc");
    let bad = Edit {
        position: 10,
        deleted_length: 2,
        inserted_text: String::from("x"),
    };
    match apply_edit(&src, &bad) {
        Err(Error::EditConflict) => {}
        _ => panic!("expected a conflict failure"),
    }
}

#[test]
fn test_apply_edit_encoding_error() {
    let src = treematch::SourceText::new("h\u{e9}llo");
    let bad = Edit {
        position: 2,
        deleted_length: 0,
        inserted_text: String::from("x"),
    };
    match apply_edit(&src, &bad) {
        Err(Error::Encoding) => {}
        _ => panic!("expected an encoding failure"),
    }
}

#[test]
fn test_batch_ascending_equals_descending() {
    let src = treematch::SourceText::new("abcdef");
    let batch = vec![
        Edit {
            position: 1,
            deleted_length: 2,
            inserted_text: String::from("XY"),
        },
        Edit {
            position: 4,
            deleted_length: 1,
            inserted_text: String::from(""),
        },
    ];
    let ascending = apply_edits(&src, &batch).unwrap();
    let mut cur = treematch::SourceText::new("abcdef");
    let mut i = batch.len();
    while i > 0 {
        i -= 1;
        cur = apply_edit(&cur, &batch[i]).unwrap();
    }
    assert_eq!(ascending.text, cur.text);
    assert_eq!(ascending.text, "aXYdf");
}

#[test]
fn test_batch_overlap_conflicts() {
    let src = treematch::SourceText::new("abcdef");
    let batch = vec![
        Edit {
            position: 1,
            deleted_length: 3,
            inserted_text: String::from("x"),
        },
        Edit {
            position: 2,
            deleted_length: 1,
            inserted_text: String::from("y"),
        },
    ];
    match apply_edits(&src, &batch) {
        Err(Error::EditConflict) => {}
        _ => panic!("expected a conflict failure"),
    }
}

#[test]
fn test_empty_batch_keeps_text() {
    let src = treematch::SourceText::new("let a = 123");
    let batch: Vec<Edit> = Vec::new();
    assert_eq!(apply_edits(&src, &batch).unwrap().text, "let a = 123");
}

#[test]
fn test_rewrite_every_match_as_a_batch() {
    let root = Root::new("let a = 1\nlet b = 2").unwrap();
    let pat = Pattern::new("let $X = $Y").unwrap();
    let replacer = Replacer::new("let $Y = $X");
    let hits = root.root().find_all(&pat);
    let mut edits = Vec::new();
    for h in hits {
        edits.push(h.replace_with(&pat, &replacer).unwrap().unwrap());
    }
    let out = apply_edits(&root.src, &edits).unwrap();
    assert_eq!(out.text, "let 1 = a\nlet 2 = b");
}

#[test]
fn test_find_is_scoped_to_the_subtree() {
    let root = Root::new("f()\nlet a = 123").unwrap();
    let pat = Pattern::new("let $X = $Y").unwrap();
    let stmts = root.root().children();
    assert_eq!(stmts.len(), 2);
    assert!(stmts[0].find(&pat).is_none());
    assert!(stmts[1].find(&pat).is_some());
}

#[test]
fn test_template_without_captures_is_literal() {
    let root = Root::new("let a = 123").unwrap();
    let replacer = Replacer::new("nothing here");
    let edit = root
        .root()
        .replace("let $X = $Y", &replacer)
        .unwrap()
        .unwrap();
    assert_eq!(edit.inserted_text, "nothing here");
}

#[test]
fn test_lone_sigil_is_literal() {
    let root = Root::new("let a = 123").unwrap();
    let replacer = Replacer::new("cost: $5 + $X");
    let edit = root
        .root()
        .replace("let $X = $Y", &replacer)
        .unwrap()
        .unwrap();
    assert_eq!(edit.inserted_text, "cost: $5 + a");
}
