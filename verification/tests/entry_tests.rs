use kanidm_proto::entry::{apply_modifylist, Attr, Entry, Modify, ModifyList};

fn attr(name: &str, values: &[&str]) -> Attr {
    Attr {
        name: name.to_string(),
        values: values.iter().map(|v| v.to_string()).collect(),
    }
}

#[test]
fn test_modify_later_purge_wins() {
    // Present then Purged on the same attribute: the later operation
    // wins and the attribute ends absent.
    let e = Entry { attrs: vec![] };
    let ml = ModifyList::new_list(vec![
        Modify::Present("mail".to_string(), "a@x".to_string()),
        Modify::Purged("mail".to_string()),
    ]);
    let out = apply_modifylist(e, &ml);
    assert_eq!(out, Entry { attrs: vec![] });
}

#[test]
fn test_modify_present_appends_in_order() {
    let e = Entry { attrs: vec![attr("class", &["person"])] };
    let ml = ModifyList::new_list(vec![
        Modify::Present("class".to_string(), "account".to_string()),
        Modify::Present("mail".to_string(), "a@x".to_string()),
    ]);
    let out = apply_modifylist(e, &ml);
    assert_eq!(
        out,
        Entry {
            attrs: vec![attr("class", &["person", "account"]), attr("mail", &["a@x"])]
        }
    );
}

#[test]
fn test_modify_removed_drops_value_and_empty_attr() {
    let e = Entry { attrs: vec![attr("mail", &["a@x", "b@x"]), attr("class", &["person"])] };
    let ml = ModifyList::new_list(vec![
        Modify::Removed("mail".to_string(), "a@x".to_string()),
        Modify::Removed("class".to_string(), "person".to_string()),
    ]);
    let out = apply_modifylist(e, &ml);
    assert_eq!(out, Entry { attrs: vec![attr("mail", &["b@x"])] });
}

#[test]
fn test_modify_removed_absent_is_noop() {
    let e = Entry { attrs: vec![attr("class", &["person"])] };
    let ml = ModifyList::new_list(vec![
        Modify::Removed("mail".to_string(), "a@x".to_string()),
        Modify::Purged("phone".to_string()),
    ]);
    let out = apply_modifylist(e, &ml);
    assert_eq!(out, Entry { attrs: vec![attr("class", &["person"])] });
}

#[test]
fn test_modify_list_preserves_order_verbatim() {
    let ml = ModifyList::new_list(vec![
        Modify::Purged("a".to_string()),
        Modify::Present("a".to_string(), "1".to_string()),
    ]);
    assert_eq!(ml.mods.len(), 2);
    assert!(matches!(ml.mods[0], Modify::Purged(_)));
    // Purge-then-present leaves the attribute present: order matters.
    let e = Entry { attrs: vec![attr("a", &["0"])] };
    let out = apply_modifylist(e, &ml);
    assert_eq!(out, Entry { attrs: vec![attr("a", &["1"])] });
}
