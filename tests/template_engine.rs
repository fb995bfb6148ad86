use flust::template_engine::{render_items, Context, TemplateEngine};

#[test]
fn test_simple_replacement() {
    let template = "Hello {{name}}!";
    let mut context = Context::new();
    context.insert("name".to_string(), "World".to_string());

    let result = TemplateEngine::render(template, &context);
    assert_eq!(result, "Hello World!");
}

#[test]
fn test_conditional_true() {
    let template = "{{#if label}}Label: {{label}}{{else}}No label{{/if}}";
    let mut context = Context::new();
    context.insert("label".to_string(), "Test".to_string());

    let result = TemplateEngine::render(template, &context);
    assert_eq!(result, "Label: Test");
}

#[test]
fn test_conditional_false() {
    let template = "{{#if label}}Label: {{label}}{{else}}No label{{/if}}";
    let context = Context::new();

    let result = TemplateEngine::render(template, &context);
    assert_eq!(result, "No label");
}

#[test]
fn each_over_three_elements_separates_without_trailing() {
    let template = "{{#each items}}{{name}}{{#unless @last}}, {{/unless}}{{/each}}";
    let mut context = Context::new();
    context.insert(
        "items".to_string(),
        r#"[{"name":"a"},{"name":"b"},{"name":"c"}]"#.to_string(),
    );
    assert_eq!(TemplateEngine::render(template, &context), "a, b, c");
}

#[test]
fn each_renders_numbers_and_booleans_as_text() {
    let template = "{{#each xs}}{{n}}={{b}};{{/each}}";
    let mut context = Context::new();
    context.insert("xs".to_string(), r#"[{"n":7,"b":true},{"n":-2,"b":false}]"#.to_string());
    assert_eq!(TemplateEngine::render(template, &context), "7=true;-2=false;");
}

#[test]
fn each_over_missing_or_invalid_array_is_empty() {
    let template = "<{{#each xs}}{{n}}{{/each}}>";
    let context = Context::new();
    assert_eq!(TemplateEngine::render(template, &context), "<>");
    let mut bad = Context::new();
    bad.insert("xs".to_string(), "not json".to_string());
    assert_eq!(TemplateEngine::render(template, &bad), "<>");
}

#[test]
fn render_items_keeps_unless_content_except_for_last() {
    let items = vec![
        Some(vec![("k".to_string(), "1".to_string())]),
        Some(vec![("k".to_string(), "2".to_string())]),
    ];
    assert_eq!(render_items("{{k}}{{#unless @last}}+{{/unless}}", &items), "1+2");
}

#[test]
fn render_twice_gives_identical_output() {
    let template = "{{#if a}} x={{a}} {{/if}}{{b}}";
    let mut context = Context::new();
    context.insert("a".to_string(), "1".to_string());
    context.insert("b".to_string(), "2".to_string());
    let first = TemplateEngine::render(template, &context);
    let second = TemplateEngine::render(template, &context);
    assert_eq!(first, second);
    assert_eq!(first, "x=12");
}

#[test]
fn template_without_placeholders_is_unchanged() {
    let mut context = Context::new();
    context.insert("a".to_string(), "1".to_string());
    assert_eq!(TemplateEngine::render("plain text, a b", &context), "plain text, a b");
}

#[test]
fn unknown_placeholder_stays_literal() {
    let context = Context::new();
    assert_eq!(TemplateEngine::render("Hi {{who}}", &context), "Hi {{who}}");
}

#[test]
fn conditional_with_empty_value_is_false_and_branch_is_trimmed() {
    let mut context = Context::new();
    context.insert("x".to_string(), "".to_string());
    assert_eq!(TemplateEngine::render("[{{#if x}} yes {{else}}\n no \t{{/if}}]", &context), "[no]");
    assert_eq!(TemplateEngine::render("[{{#if x}}only{{/if}}]", &context), "[]");
}

#[test]
fn unterminated_conditional_is_left_as_is() {
    let context = Context::new();
    assert_eq!(TemplateEngine::render("{{#if x}}open", &context), "{{#if x}}open");
}

#[test]
fn insert_replaces_existing_value() {
    let mut context = Context::new();
    context.insert("k".to_string(), "1".to_string());
    context.insert("k".to_string(), "2".to_string());
    assert_eq!(context.get("k"), Some(&"2".to_string()));
    assert_eq!(context.entries().len(), 1);
}

#[test]
fn each_blocks_are_scanned_again_after_each_one() {
    let context = Context::new();
    assert_eq!(TemplateEngine::render("{{{{#each }}{{/each}}#each }}{{/each}}", &context), "");
}

#[test]
fn each_block_brought_back_by_its_items_stops_after_the_round_limit() {
    let mut context = Context::new();
    context.insert("xs".to_string(), r#"[{"t":"{{#each xs}}{{t}}{{/each}}"}]"#.to_string());
    let template = "{{#each xs}}{{t}}{{/each}}";
    assert_eq!(TemplateEngine::render(template, &context), template);
}
