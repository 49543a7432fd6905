use trans_editor::clipboard::{Clipboard, NoopClipboard};
use trans_editor::document::JsonValue;
use trans_editor::path::{join_child, key_less, split_key};
use trans_editor::session::{App, AppMode};
use trans_editor::store::{lookup_pair, TranslationItem, TranslationStore};
use trans_editor::tree::TreeNode;
use trans_editor::viewport::list_offset;

fn text(s: &str) -> JsonValue {
    JsonValue::String(s.to_string())
}

fn obj(entries: Vec<(&str, JsonValue)>) -> JsonValue {
    JsonValue::Object(entries.into_iter().map(|(k, v)| (k.to_string(), v)).collect())
}

fn doc(entries: Vec<(&str, JsonValue)>) -> Vec<(String, JsonValue)> {
    entries.into_iter().map(|(k, v)| (k.to_string(), v)).collect()
}

fn item(key: &str, source: &str, target: Option<&str>) -> TranslationItem {
    TranslationItem {
        key: key.to_string(),
        source_text: source.to_string(),
        target_text: target.map(|t| t.to_string()),
    }
}

fn source_doc() -> Vec<(String, JsonValue)> {
    doc(vec![("a", obj(vec![("b", text("Hello")), ("c", text("World"))]))])
}

fn rows(app: &App) -> Vec<(String, usize)> {
    app.visible_nodes.clone()
}

fn paths(nodes: &[TreeNode]) -> Vec<String> {
    let mut out = Vec::new();
    for n in nodes {
        out.push(n.full_path.clone());
        out.extend(paths(&n.children));
    }
    out
}

#[test]
fn load_without_output_file() {
    let items = TranslationStore::items_from_documents(&source_doc(), &Vec::new());
    assert_eq!(items.len(), 2);
    assert_eq!(items[0].key, "a.b");
    assert_eq!(items[0].source_text, "Hello");
    assert!(!items[0].is_translated());
    assert_eq!(items[1].key, "a.c");
    assert_eq!(items[1].source_text, "World");
    assert!(!items[1].is_translated());

    let app = App::new(items);
    assert_eq!(app.tree.len(), 1);
    assert_eq!(app.tree[0].key_segment, "a");
    assert_eq!(app.tree[0].children.len(), 2);
    assert!(app.tree[0].children.iter().all(|c| c.is_leaf()));
    assert_eq!(rows(&app), vec![("a".to_string(), 0)]);
}

#[test]
fn load_with_output_file() {
    let target = doc(vec![("a", obj(vec![("b", text("Bonjour"))]))]);
    let items = TranslationStore::items_from_documents(&source_doc(), &target);
    assert_eq!(items[0].target_text, Some("Bonjour".to_string()));
    assert!(items[0].is_translated());
    assert_eq!(items[1].target_text, None);
    let app = App::new(items);
    assert!(!app.tree[0].fully_translated);
    assert!(app.tree[0].children[0].fully_translated);
}

#[test]
fn edit_then_save_document() {
    let target = doc(vec![("a", obj(vec![("b", text("Bonjour"))]))]);
    let items = TranslationStore::items_from_documents(&source_doc(), &target);
    let mut app = App::new(items);
    app.toggle_expand();
    app.next();
    app.next();
    assert_eq!(app.get_selected_path(), Some("a.c".to_string()));
    app.set_selected_target(Some("Monde".to_string()));
    assert!(app.tree[0].fully_translated);
    let out = app.translation_store.unflatten_to_json_value();
    let expected = obj(vec![("a", obj(vec![("b", text("Bonjour")), ("c", text("Monde"))]))]);
    assert_eq!(out, expected);
}

#[test]
fn offset_clamps_at_list_end() {
    assert_eq!(list_offset(2, 3, 2), 1);
}

#[test]
fn offset_is_zero_when_list_fits() {
    assert_eq!(list_offset(4, 5, 10), 0);
    assert_eq!(list_offset(0, 0, 3), 0);
}

#[test]
fn offset_centers_selection() {
    assert_eq!(list_offset(10, 100, 10), 5);
    assert_eq!(list_offset(3, 100, 10), 0);
    assert_eq!(list_offset(99, 100, 10), 90);
}

#[test]
fn flatten_joins_nested_keys() {
    let d = doc(vec![
        ("x", obj(vec![("y", obj(vec![("z", text("deep"))]))])),
        ("top", text("t")),
    ]);
    let flat = TranslationStore::flatten_json(&d);
    assert_eq!(
        flat,
        vec![("top".to_string(), "t".to_string()), ("x.y.z".to_string(), "deep".to_string())]
    );
}

#[test]
fn flatten_duplicate_path_later_wins() {
    let d = doc(vec![("a", obj(vec![("b", text("first"))])), ("a.b", text("second"))]);
    let flat = TranslationStore::flatten_json(&d);
    assert_eq!(flat, vec![("a.b".to_string(), "second".to_string())]);
}

#[test]
fn flatten_recursive_adds_below_prefix() {
    let mut flat = Vec::new();
    TranslationStore::flatten_recursive("p", &obj(vec![("q", text("v"))]), &mut flat);
    assert_eq!(flat, vec![("p.q".to_string(), "v".to_string())]);
}

#[test]
fn unflatten_skips_unset_items() {
    let store = TranslationStore::new(vec![item("a.b", "x", None), item("a.c", "y", Some("Y"))]);
    let out = store.unflatten_to_json_value();
    assert_eq!(out, obj(vec![("a", obj(vec![("c", text("Y"))]))]));
}

#[test]
fn unflatten_keeps_empty_translation() {
    let store = TranslationStore::new(vec![item("k", "x", Some(""))]);
    assert_eq!(store.unflatten_to_json_value(), obj(vec![("k", text(""))]));
}

#[test]
fn round_trip_reproduces_mapping() {
    let store = TranslationStore::new(vec![
        item("m.n", "s1", Some("t1")),
        item("a", "s2", Some("t2")),
        item("m.o.p", "s3", Some("t3")),
    ]);
    let out = store.unflatten_to_json_value();
    let entries = match out {
        JsonValue::Object(es) => es,
        JsonValue::String(_) => panic!("top level is an object"),
    };
    let flat = TranslationStore::flatten_json(&entries);
    assert_eq!(
        flat,
        vec![
            ("a".to_string(), "t2".to_string()),
            ("m.n".to_string(), "t1".to_string()),
            ("m.o.p".to_string(), "t3".to_string()),
        ]
    );
}

#[test]
fn round_trip_twice_is_same_as_once() {
    let store = TranslationStore::new(vec![item("x.y", "s", Some("1")), item("x.z", "s", Some("2"))]);
    let once = match store.unflatten_to_json_value() {
        JsonValue::Object(es) => TranslationStore::flatten_json(&es),
        JsonValue::String(_) => panic!("top level is an object"),
    };
    let again_items: Vec<TranslationItem> =
        once.iter().map(|(k, v)| item(k, v, Some(v))).collect();
    let twice = match TranslationStore::new(again_items).unflatten_to_json_value() {
        JsonValue::Object(es) => TranslationStore::flatten_json(&es),
        JsonValue::String(_) => panic!("top level is an object"),
    };
    assert_eq!(once, twice);
}

#[test]
fn build_tree_is_independent_of_input_order() {
    let a = vec![item("b.x", "1", None), item("a", "2", None), item("b.w", "3", None)];
    let b = vec![item("b.w", "3", None), item("b.x", "1", None), item("a", "2", None)];
    let ta = App::build_tree(a);
    let tb = App::build_tree(b);
    assert_eq!(paths(&ta), paths(&tb));
    assert_eq!(paths(&ta), vec!["a", "b", "b.w", "b.x"]);
}

#[test]
fn build_tree_reuses_earlier_sibling() {
    let t = App::build_tree(vec![item("a", "1", None), item("a-b", "2", None), item("a.x", "3", None)]);
    assert_eq!(t.len(), 2);
    assert_eq!(t[0].key_segment, "a");
    assert!(t[0].translation.is_some());
    assert_eq!(t[0].children.len(), 1);
    assert_eq!(t[0].children[0].full_path, "a.x");
    assert_eq!(t[1].key_segment, "a-b");
}

#[test]
fn completion_needs_every_leaf() {
    let mut tree = App::build_tree(vec![
        item("r.a", "1", Some("A")),
        item("r.s.b", "2", Some("B")),
        item("r.s.c", "3", None),
    ]);
    assert!(!App::update_node_translation_status(&mut tree));
    assert!(!tree[0].fully_translated);
    assert!(!tree[0].children[1].fully_translated);
    assert!(tree[0].children[0].fully_translated);
}

#[test]
fn completion_all_translated() {
    let mut tree = App::build_tree(vec![item("r.a", "1", Some("A")), item("r.b", "2", Some("B"))]);
    assert!(App::update_node_translation_status(&mut tree));
    assert!(tree[0].fully_translated);
}

#[test]
fn empty_translation_is_not_done() {
    let it = item("k", "src", Some(""));
    assert!(!it.is_translated());
    let mut tree = App::build_tree(vec![it]);
    assert!(!App::update_node_translation_status(&mut tree));
}

#[test]
fn visible_rows_follow_expand_flags() {
    let mut app = App::new(vec![item("a.b.c", "1", None), item("a.d", "2", None), item("e", "3", None)]);
    assert_eq!(rows(&app), vec![("a".to_string(), 0), ("e".to_string(), 0)]);
    app.toggle_expand();
    assert_eq!(
        rows(&app),
        vec![("a".to_string(), 0), ("a.b".to_string(), 1), ("a.d".to_string(), 1), ("e".to_string(), 0)]
    );
    app.next();
    app.toggle_expand();
    assert_eq!(
        rows(&app),
        vec![
            ("a".to_string(), 0),
            ("a.b".to_string(), 1),
            ("a.b.c".to_string(), 2),
            ("a.d".to_string(), 1),
            ("e".to_string(), 0)
        ]
    );
}

#[test]
fn toggle_keeps_focus_on_node() {
    let mut app = App::new(vec![item("a.x", "1", None), item("b.y", "2", None)]);
    app.next();
    assert_eq!(app.get_selected_path(), Some("b".to_string()));
    app.previous();
    app.toggle_expand();
    app.next();
    app.next();
    assert_eq!(app.get_selected_path(), Some("b".to_string()));
    app.toggle_expand();
    assert_eq!(app.get_selected_path(), Some("b".to_string()));
    assert_eq!(app.selected_index, 2);
    app.previous();
    app.previous();
    app.toggle_expand();
    assert_eq!(app.get_selected_path(), Some("a".to_string()));
    assert_eq!(app.selected_index, 0);
}

#[test]
fn selection_clamps_when_rows_shrink() {
    let mut app = App::new(vec![item("a.x", "1", None), item("a.y", "2", None)]);
    app.toggle_expand();
    app.next();
    app.next();
    assert_eq!(app.selected_index, 2);
    app.tree[0].expanded = false;
    app.update_visible_nodes();
    assert_eq!(app.selected_index, 0);
}

#[test]
fn next_and_previous_stop_at_ends() {
    let mut app = App::new(vec![item("a", "1", None), item("b", "2", None)]);
    app.previous();
    assert_eq!(app.selected_index, 0);
    app.next();
    app.next();
    assert_eq!(app.selected_index, 1);
    let mut empty = App::new(Vec::new());
    empty.next();
    assert_eq!(empty.selected_index, 0);
    assert_eq!(empty.get_selected_path(), None);
}

#[test]
fn set_expanded_only_changes_when_needed() {
    let mut app = App::new(vec![item("a.x", "1", None)]);
    app.set_selected_expanded(false);
    assert_eq!(app.visible_nodes.len(), 1);
    app.set_selected_expanded(true);
    assert_eq!(app.visible_nodes.len(), 2);
    app.set_selected_expanded(true);
    assert_eq!(app.visible_nodes.len(), 2);
    app.set_selected_expanded(false);
    assert_eq!(app.visible_nodes.len(), 1);
}

#[test]
fn get_node_follows_segments() {
    let app = App::new(vec![item("a.b.c", "1", None)]);
    let n = app.get_node("a.b").expect("node a.b");
    assert_eq!(n.full_path, "a.b");
    assert!(app.get_node("a.c").is_none());
    assert!(app.get_node("").is_none());
    assert_eq!(app.get_node("a.b.c").map(|n| n.is_leaf()), Some(true));
}

#[test]
fn editing_saves_text_and_clears_on_empty() {
    let mut app = App::new(vec![item("a", "Hello", None)]);
    assert_eq!(app.enter_editing_mode(), Some(("Hello".to_string(), String::new())));
    assert_eq!(app.mode, AppMode::Editing);
    app.exit_editing_mode_and_save("Halo".to_string());
    assert_eq!(app.mode, AppMode::Normal);
    assert_eq!(app.translation_store.all_items[0].target_text, Some("Halo".to_string()));
    assert_eq!(app.get_translation_progress(), (1, 1));
    assert!(app.tree[0].fully_translated);
    assert_eq!(app.enter_editing_mode(), Some(("Hello".to_string(), "Halo".to_string())));
    app.exit_editing_mode_and_save(String::new());
    assert_eq!(app.translation_store.all_items[0].target_text, None);
    assert_eq!(app.tree[0].translation.as_ref().unwrap().target_text, None);
    assert_eq!(app.get_translation_progress(), (0, 1));
}

#[test]
fn editing_is_refused_on_folder() {
    let mut app = App::new(vec![item("a.b", "x", None)]);
    assert_eq!(app.enter_editing_mode(), None);
    assert_eq!(app.mode, AppMode::Normal);
    app.exit_editing_mode_without_saving();
    assert_eq!(app.mode, AppMode::Normal);
}

#[test]
fn store_new_keeps_later_duplicate() {
    let store = TranslationStore::new(vec![item("k", "old", None), item("a", "s", None), item("k", "new", None)]);
    assert_eq!(store.all_items.len(), 2);
    assert_eq!(store.all_items[0].key, "a");
    assert_eq!(store.all_items[1].source_text, "new");
    assert_eq!(store.find("k"), Some(1));
    assert_eq!(store.find("zz"), None);
}

#[test]
fn store_set_target_and_progress() {
    let mut store = TranslationStore::new(vec![item("a", "1", None), item("b", "2", Some("B"))]);
    assert_eq!(store.progress(), (1, 2));
    assert!(store.set_target("a", Some("A".to_string())));
    assert!(!store.set_target("c", Some("C".to_string())));
    assert_eq!(store.progress(), (2, 2));
}

#[test]
fn display_text_marks_untranslated() {
    assert_eq!(item("k", "Hello", None).get_display_text(), "[UNTRANSLATED] Hello");
    assert_eq!(item("k", "Hello", Some("Hola")).get_display_text(), "Hola");
}

#[test]
fn keys_order_by_code_point() {
    assert!(key_less("a", "b"));
    assert!(key_less("a", "a.b"));
    assert!(key_less("a-x", "a.b"));
    assert!(!key_less("b", "a"));
    assert!(!key_less("a", "a"));
    assert!(key_less("", "a"));
}

#[test]
fn split_and_join_keys() {
    assert_eq!(split_key("a.b.c"), vec!["a", "b", "c"]);
    assert_eq!(split_key("plain"), vec!["plain"]);
    assert_eq!(split_key("a..b"), vec!["a", "", "b"]);
    assert_eq!(split_key(""), vec![""]);
    assert_eq!(join_child(Some("a.b"), "c"), "a.b.c");
    assert_eq!(join_child(None, "c"), "c");
}

#[test]
fn lookup_pair_finds_last() {
    let pairs = vec![("k".to_string(), "1".to_string()), ("k".to_string(), "2".to_string())];
    assert_eq!(lookup_pair(&pairs, "k"), Some("2".to_string()));
    assert_eq!(lookup_pair(&pairs, "x"), None);
}

#[test]
fn noop_clipboard_always_fails() {
    let c = NoopClipboard;
    let e = c.copy("x").unwrap_err();
    assert_eq!(e.message, "No system clipboard available or supported.");
    assert!(c.paste().is_err());
}

#[test]
fn unflatten_value_blocks_namespace() {
    let store = TranslationStore::new(vec![item("a", "x", Some("A")), item("a.b", "y", Some("B"))]);
    assert_eq!(store.unflatten_to_json_value(), obj(vec![("a", text("A"))]));
}

#[test]
fn rows_generated_below_depth() {
    let mut tree = App::build_tree(vec![item("a.b", "1", None), item("c", "2", None)]);
    tree[0].expanded = true;
    let mut out = vec![("before".to_string(), 9)];
    App::generate_visible_list_recursive(&tree, 3, &mut out);
    assert_eq!(
        out,
        vec![
            ("before".to_string(), 9),
            ("a".to_string(), 3),
            ("a.b".to_string(), 4),
            ("c".to_string(), 3)
        ]
    );
}

#[test]
fn selected_node_follows_selection() {
    let mut app = App::new(vec![item("a.b", "1", None), item("c", "2", None)]);
    assert_eq!(app.get_selected_node().map(|n| n.full_path.clone()), Some("a".to_string()));
    app.next();
    assert_eq!(app.get_selected_node().map(|n| n.is_leaf()), Some(true));
}

#[test]
fn paste_sets_translation_even_when_empty() {
    let mut app = App::new(vec![item("a", "src", Some("old"))]);
    app.set_selected_target(Some(String::new()));
    assert_eq!(app.translation_store.all_items[0].target_text, Some(String::new()));
    assert!(!app.tree[0].fully_translated);
    assert_eq!(app.get_translation_progress(), (0, 1));
}

#[test]
fn round_trip_twice_with_value_and_namespace_key() {
    let store = TranslationStore::new(vec![item("a", "s", Some("A")), item("a.b", "s", Some("B"))]);
    let once = match store.unflatten_to_json_value() {
        JsonValue::Object(es) => TranslationStore::flatten_json(&es),
        JsonValue::String(_) => panic!("top level is an object"),
    };
    assert_eq!(once, vec![("a".to_string(), "A".to_string())]);
    let again_items: Vec<TranslationItem> = once.iter().map(|(k, v)| item(k, v, Some(v))).collect();
    let twice = match TranslationStore::new(again_items).unflatten_to_json_value() {
        JsonValue::Object(es) => TranslationStore::flatten_json(&es),
        JsonValue::String(_) => panic!("top level is an object"),
    };
    assert_eq!(once, twice);
}

#[test]
fn noop_clipboard_paste_message() {
    let e = NoopClipboard.paste().unwrap_err();
    assert_eq!(e.message, "No system clipboard available or supported.");
}
