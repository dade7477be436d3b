use zillanote::templates::{template, templates, DEFAULT_SYSTEM_PROMPT, DEFAULT_TEMPLATE};

#[test]
fn the_default_template_exists_and_unknown_ids_fall_back_to_it() {
    assert_eq!(template(DEFAULT_TEMPLATE).id, DEFAULT_TEMPLATE);
    assert_eq!(template("no-such-template").id, templates()[0].id);
    assert_eq!(templates()[0].id, DEFAULT_TEMPLATE);
}

#[test]
fn the_system_prompt_forbids_inventing_facts_and_owners() {
    assert!(DEFAULT_SYSTEM_PROMPT.contains("Never invent"));
    assert!(DEFAULT_SYSTEM_PROMPT.contains("clearly committed"));
}

#[test]
fn every_template_is_found_by_its_id() {
    for t in templates() {
        assert_eq!(template(t.id).id, t.id);
        assert!(!t.prompt.is_empty());
    }
}
