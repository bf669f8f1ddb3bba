use lieui::inspector::{answers_request, session_action, SessionAction, SessionInput};
use lieui::inspector::{
    child_nodes, classify_method, document_node, CdpMethod, CdpNode, IdMap, InspectorShared, WidgetDesc,
};

fn desc(name: &str, path: &str, text: Option<&str>, children: Vec<WidgetDesc>) -> WidgetDesc {
    WidgetDesc { name: name.to_string(), path: path.to_string(), text: text.map(|t| t.to_string()), children }
}

fn sample() -> WidgetDesc {
    desc(
        "Column",
        "Column",
        None,
        vec![
            desc("Text", "Column/0/Text", Some("hi"), vec![]),
            desc("Row", "Column/1/Row", None, vec![desc("Button", "Column/1/Row/0/Button", None, vec![])]),
        ],
    )
}

#[test]
fn find_by_path_searches_preorder() {
    let d = sample();
    assert_eq!(d.find_by_path("Column").map(|n| n.name.clone()), Some("Column".to_string()));
    assert_eq!(
        d.find_by_path("Column/1/Row/0/Button").map(|n| n.name.clone()),
        Some("Button".to_string())
    );
    assert!(d.find_by_path("Column/9").is_none());
}

#[test]
fn id_map_gives_stable_ids_in_order_of_first_sight() {
    let mut ids = IdMap::new();
    assert_eq!(ids.id_for("a"), 1);
    assert_eq!(ids.id_for("b"), 2);
    assert_eq!(ids.id_for("a"), 1);
    assert_eq!(ids.id_for("c"), 3);
    assert_eq!(ids.path_for(2), Some("b".to_string()));
    assert_eq!(ids.path_for(0), None);
    assert_eq!(ids.path_for(4), None);
}

#[test]
fn cdp_node_mirrors_the_description() {
    let d = sample();
    let mut ids = IdMap::new();
    let n = CdpNode::from_desc(&d, None, &mut ids);
    assert_eq!(n.node_id, 1);
    assert_eq!(n.backend_node_id, 1);
    assert_eq!(n.node_type, 1);
    assert_eq!(n.node_name, "Column");
    assert_eq!(n.child_node_count, 2);
    assert_eq!(n.parent_id, None);
    assert_eq!(n.attributes, Some(vec!["widget".to_string(), "Column".to_string()]));
    let kids = n.children.as_ref().unwrap();
    assert_eq!(kids[0].node_id, 2);
    assert_eq!(kids[0].parent_id, Some(1));
    assert_eq!(
        kids[0].attributes,
        Some(vec!["widget".to_string(), "Text".to_string(), "text".to_string(), "hi".to_string()])
    );
    assert!(kids[0].children.is_none());
    assert_eq!(kids[1].node_id, 3);
    assert_eq!(kids[1].children.as_ref().unwrap()[0].node_id, 4);
    // a second build reuses the ids
    let again = CdpNode::from_desc(&d, None, &mut ids);
    assert_eq!(again.children.as_ref().unwrap()[1].node_id, 3);
}

#[test]
fn document_and_child_nodes_answers() {
    let mut shared = InspectorShared::new();
    let mut ids = IdMap::new();
    let e = document_node(&shared, &mut ids).err().unwrap();
    assert_eq!((e.code, e.message.as_str()), (-1, "no snapshot yet"));
    let e = child_nodes(&shared, &mut ids, None).err().unwrap();
    assert_eq!((e.code, e.message.as_str()), (-32602, "missing nodeId"));
    let e = child_nodes(&shared, &mut ids, Some(1)).err().unwrap();
    assert_eq!((e.code, e.message.as_str()), (-1, "node not found in id map"));
    shared.snapshot = Some(sample());
    let doc = document_node(&shared, &mut ids).ok().unwrap();
    assert_eq!(doc.node_id, 1);
    let (pid, kids) = child_nodes(&shared, &mut ids, Some(3)).ok().unwrap();
    assert_eq!(pid, 3);
    assert_eq!(kids.len(), 1);
    assert_eq!(kids[0].node_name, "Button");
    assert_eq!(kids[0].parent_id, Some(3));
    shared.snapshot = Some(desc("Other", "Other", None, vec![]));
    let e = child_nodes(&shared, &mut ids, Some(3)).err().unwrap();
    assert_eq!((e.code, e.message.as_str()), (-1, "node not found"));
    shared.snapshot = None;
    let e = child_nodes(&shared, &mut ids, Some(3)).err().unwrap();
    assert_eq!((e.code, e.message.as_str()), (-1, "no snapshot"));
}

#[test]
fn methods_are_classified() {
    assert_eq!(classify_method("Runtime.enable"), CdpMethod::RuntimeEnable);
    assert_eq!(classify_method("Runtime.getIsolateId"), CdpMethod::IsolateId);
    assert_eq!(classify_method("Page.getFrameTree"), CdpMethod::Acknowledge);
    assert_eq!(classify_method("DOM.getDocument"), CdpMethod::Document);
    assert_eq!(classify_method("DOM.requestChildNodes"), CdpMethod::ChildNodes);
    assert_eq!(classify_method("CSS.getMatchedStylesForNode"), CdpMethod::Styles);
    assert_eq!(classify_method("Whatever.else"), CdpMethod::Unknown);
}

#[test]
fn session_reactions() {

    assert_eq!(session_action(SessionInput::Text), SessionAction::Process);
    assert_eq!(session_action(SessionInput::Close), SessionAction::End);
    assert_eq!(session_action(SessionInput::Failure), SessionAction::End);
    assert_eq!(session_action(SessionInput::Timeout), SessionAction::Skip);
    assert_eq!(session_action(SessionInput::Other), SessionAction::Skip);
    assert!(answers_request(Some(3)));
    assert!(!answers_request(None));
}
