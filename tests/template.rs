use kata::{ParseError, RenderError, Template, TemplateContext, TemplateObject};

struct Item {
    title: String,
}

impl TemplateObject for Item {
    fn load_into<'a>(&'a self, ctx: &mut TemplateContext<'a>) {
        ctx.set_str("title", &self.title);
    }
}

fn item(title: &str) -> Item {
    Item { title: title.to_string() }
}

fn render(template: &str, ctx: &TemplateContext) -> Result<String, RenderError> {
    Template::compile(template).expect("template compiles").render(ctx)
}

fn parse_error(template: &str) -> ParseError {
    match Template::compile(template) {
        Ok(_) => panic!("template should not compile"),
        Err(e) => e,
    }
}

#[test]
fn plain_text_round_trip() {
    let ctx = TemplateContext::new();
    for text in ["", "Hello, world!", "a } b }} c { d", "line\n\ttab  spaces ", "ünïcødé ✓ {"] {
        assert_eq!(render(text, &ctx).unwrap(), text);
    }
}

#[test]
fn foreach_concatenates_elements_in_order() {
    let mut ctx = TemplateContext::new();
    ctx.set_str_array("arr", &["p", "q", "r"]);
    assert_eq!(render("{{ foreach x in arr }}{{ x }}{{ end }}", &ctx).unwrap(), "pqr");
}

#[test]
fn foreach_over_empty_array_renders_nothing() {
    let mut ctx = TemplateContext::new();
    ctx.set_str_array("arr", &[]);
    assert_eq!(render("<{{ foreach x in arr }}{{ x }}{{ end }}>", &ctx).unwrap(), "<>");
}

#[test]
fn nested_foreach_is_row_major() {
    let mut ctx = TemplateContext::new();
    ctx.set_str_array("outer", &["1", "2"]);
    ctx.set_str_array("inner", &["x", "y"]);
    let t = "{{ foreach a in outer }}{{ foreach b in inner }}{{ a }}{{ b }} {{ end }}{{ end }}";
    assert_eq!(render(t, &ctx).unwrap(), "1x 1y 2x 2y ");
}

#[test]
fn unmatched_end_is_unexpected_at_end_keyword() {
    assert_eq!(
        parse_error("ab{{ end }}"),
        ParseError::Unexpected(5, "{{ end }} instruction".to_string())
    );
}

#[test]
fn error_offsets_count_bytes() {
    assert_eq!(
        parse_error("é{{ end }}"),
        ParseError::Unexpected(5, "{{ end }} instruction".to_string())
    );
}

#[test]
fn missing_in_keyword() {
    assert_eq!(
        parse_error("{{ foreach x of arr }}{{ end }}"),
        ParseError::Expected(13, "in".to_string())
    );
}

#[test]
fn missing_collection() {
    assert_eq!(
        parse_error("{{ foreach x in }}{{ end }}"),
        ParseError::Expected(16, "collection".to_string())
    );
}

#[test]
fn missing_closing_braces() {
    assert_eq!(parse_error("{{ name x }}"), ParseError::Expected(8, "}}".to_string()));
    assert_eq!(parse_error("{{ end x }}"), ParseError::Expected(7, "}}".to_string()));
    assert_eq!(parse_error("{{ foreach x in arr x }}"), ParseError::Expected(20, "}}".to_string()));
}

#[test]
fn unclosed_foreach_is_rejected() {
    assert_eq!(
        parse_error("{{ foreach x in arr }}{{ x }}"),
        ParseError::Expected(29, "{{ end }}".to_string())
    );
}

#[test]
fn undeclared_key_cannot_resolve() {
    let ctx = TemplateContext::new();
    assert_eq!(
        render("{{ missing }}", &ctx),
        Err(RenderError::CannotResolve(vec!["missing".to_string()]))
    );
}

#[test]
fn hello_world() {
    let mut ctx = TemplateContext::new();
    ctx.set_str("name", "World");
    assert_eq!(render("Hello {{ name }}!", &ctx).unwrap(), "Hello World!");
}

#[test]
fn directive_without_spaces() {
    let mut ctx = TemplateContext::new();
    ctx.set_str("name", "World");
    assert_eq!(render("Hello {{name}}!", &ctx).unwrap(), "Hello World!");
}

#[test]
fn foreach_over_objects() {
    let a = item("A");
    let b = item("B");
    let mut ctx = TemplateContext::new();
    ctx.set_obj_array("results", &[&a, &b]);
    let t = "{{ foreach r in results }}- {{ r.title }}\n{{ end }}";
    assert_eq!(render(t, &ctx).unwrap(), "- A\n- B\n");
}

#[test]
fn trailing_separator_kept() {
    let mut ctx = TemplateContext::new();
    ctx.set_str_array("items", &["a", "b"]);
    assert_eq!(render("{{ foreach i in items }}{{ i }},{{ end }}", &ctx).unwrap(), "a,b,");
}

#[test]
fn dotted_path_into_object() {
    let user = item("Ada");
    let mut ctx = TemplateContext::new();
    ctx.set_obj("user", &user);
    assert_eq!(render("{{ user.title }}", &ctx).unwrap(), "Ada");
    assert_eq!(
        render("{{ user.missing }}", &ctx),
        Err(RenderError::CannotResolve(vec!["user".to_string(), "missing".to_string()]))
    );
}

#[test]
fn path_past_a_string_keeps_the_string() {
    let mut ctx = TemplateContext::new();
    ctx.set_str("name", "World");
    assert_eq!(render("{{ name.length }}", &ctx).unwrap(), "World");
}

#[test]
fn non_string_values_render_markers() {
    let a = item("A");
    let mut ctx = TemplateContext::new();
    ctx.set_str_array("arr", &["x"]);
    ctx.set_obj("one", &a);
    ctx.set_obj_array("many", &[&a, &a]);
    assert_eq!(render("{{ arr }}", &ctx).unwrap(), "[string_arr]");
    assert_eq!(render("{{ one }}", &ctx).unwrap(), "[object]");
    assert_eq!(render("{{ many }}", &ctx).unwrap(), "[object_arr]");
    assert_eq!(
        render("{{ foreach r in many }}{{ r }};{{ end }}", &ctx).unwrap(),
        "[object_ref];[object_ref];"
    );
}

#[test]
fn cannot_iterate_missing_or_scalar() {
    let mut ctx = TemplateContext::new();
    ctx.set_str("name", "World");
    assert_eq!(
        render("{{ foreach x in nope }}{{ end }}", &ctx),
        Err(RenderError::CannotIterate("nope".to_string()))
    );
    assert_eq!(
        render("{{ foreach x in name }}{{ end }}", &ctx),
        Err(RenderError::CannotIterate("name".to_string()))
    );
}

#[test]
fn loop_variable_shadows_and_sees_outer_bindings() {
    let mut ctx = TemplateContext::new();
    ctx.set_str("x", "outer");
    ctx.set_str("sep", "|");
    ctx.set_str_array("arr", &["1", "2"]);
    let t = "{{ foreach x in arr }}{{ x }}{{ sep }}{{ end }}{{ x }}";
    assert_eq!(render(t, &ctx).unwrap(), "1|2|outer");
}

#[test]
fn later_binding_replaces_earlier() {
    let mut ctx = TemplateContext::new();
    ctx.set_str("name", "first");
    ctx.set_str("name", "second");
    assert_eq!(render("{{ name }}", &ctx).unwrap(), "second");
}

#[test]
fn template_renders_repeatedly() {
    let t = Template::compile("[{{ v }}]").unwrap();
    let mut c1 = TemplateContext::new();
    c1.set_str("v", "1");
    let mut c2 = TemplateContext::new();
    c2.set_str("v", "2");
    assert_eq!(t.render(&c1).unwrap(), "[1]");
    assert_eq!(t.render(&c2).unwrap(), "[2]");
}

#[test]
fn unmatched_end_with_space_runs() {
    assert_eq!(
        parse_error("xy{{  end   }}rest"),
        ParseError::Unexpected(6, "{{ end }} instruction".to_string())
    );
}

#[test]
fn missing_in_with_space_runs() {
    assert_eq!(
        parse_error("ab{{ foreach   x   of }}"),
        ParseError::Expected(19, "in".to_string())
    );
}

#[test]
fn undeclared_dotted_path_reports_whole_path() {
    let ctx = TemplateContext::new();
    assert_eq!(
        render("{{  a.b   }}", &ctx),
        Err(RenderError::CannotResolve(vec!["a".to_string(), "b".to_string()]))
    );
}

#[test]
fn nested_foreach_with_text_around_inner_loop() {
    let mut ctx = TemplateContext::new();
    ctx.set_str_array("xs", &["1", "2"]);
    ctx.set_str_array("ys", &["a", "b"]);
    let t = "{{ foreach a in xs }}<{{ foreach b in ys }}{{ a }}{{ b }};{{ end }}>{{ end }}";
    assert_eq!(render(t, &ctx).unwrap(), "<1a;1b;><2a;2b;>");
}
