use blanket_rs::structure;
use blanket_rs::{
    CopyDir, CopyDirBuilder, CopyFile, DangerouslySetInnerHTML, ElementFragment, HTML5Doctype,
    Html, Render, RenderFile, SimpleElement,
};
use blanket_rs::{Analyze, Structure};

#[test]
fn doctype_renders() {
    assert_eq!(HTML5Doctype.render().unwrap(), String::from("<!DOCTYPE html>"));
}

#[test]
fn inner_html_renders_unchanged() {
    let raw = DangerouslySetInnerHTML { html: String::from("<b>bold</b>") };
    assert_eq!(raw.render().unwrap(), String::from("<b>bold</b>"));
}

#[test]
fn simple_element_renders() {
    let element = SimpleElement {
        tag: String::from("p"),
        attributes: vec![(String::from("class"), String::from("x"))],
        content: Some(String::from("hi")),
        children: vec![],
    };
    assert_eq!(element.render().unwrap(), String::from("<p class=\"x\">hi</p>"));
}

#[test]
fn attributes_join_keeps_both_spaces() {
    // each attribute renders with a leading space and the list is
    // joined with another space, so two attributes sit two spaces
    // apart
    let element = SimpleElement {
        tag: String::from("a"),
        attributes: vec![
            (String::from("href"), String::from("/")),
            (String::from("id"), String::from("home")),
        ],
        content: Some(String::from("go")),
        children: vec![],
    };
    assert_eq!(
        element.render().unwrap(),
        String::from("<a href=\"/\"  id=\"home\">go</a>")
    );
}

#[test]
fn fragment_concatenates_children() {
    let fragment = ElementFragment {
        children: vec![
            Html::Doctype(HTML5Doctype),
            Html::Element(SimpleElement {
                tag: String::from("div"),
                attributes: vec![],
                content: None,
                children: vec![Html::Inner(DangerouslySetInnerHTML {
                    html: String::from("inner"),
                })],
            }),
        ],
    };
    assert_eq!(
        fragment.render().unwrap(),
        String::from("<!DOCTYPE html><div>inner</div>")
    );
}

#[test]
fn render_file_content() {
    let file = RenderFile::new(
        String::from("out/index.html"),
        Html::Element(SimpleElement {
            tag: String::from("html"),
            attributes: vec![],
            content: Some(String::from("x")),
            children: vec![],
        }),
    );
    assert_eq!(file.destination, String::from("out/index.html"));
    assert_eq!(file.content(), String::from("<html>x</html>"));
}

#[test]
fn copy_file_analysis() {
    let file = CopyFile::new(String::from("src/a.css"), String::from("out/a.css"));
    assert_eq!(file.dependencies(), vec![String::from("src/a.css")]);
    assert_eq!(file.output(), String::from("out/a.css"));
}

#[test]
fn copy_dir_selects_by_filters() {
    let dir = CopyDir::builder(String::from("content"), String::from("site"))
        .accept(vec![String::from(r".*\.png")])
        .build();
    let walked = vec![
        String::from("img/a.png"),
        String::from("notes.txt"),
        String::from("img/b.png"),
    ];
    let targets = dir.select_targets(&walked).unwrap();
    assert_eq!(targets.len(), 2);
    assert_eq!(targets[0].source, String::from("content/img/a.png"));
    assert_eq!(targets[0].path, String::from("site/img/a.png"));
    assert_eq!(targets[1].source, String::from("content/img/b.png"));
    assert_eq!(targets[1].path, String::from("site/img/b.png"));

    // the selected copies become uniquely-owned registrations
    let regs = CopyDir::to_registrations(targets);
    assert_eq!(regs.len(), 2);
}

#[test]
fn copy_dir_builder_collects_patterns() {
    let builder = CopyDirBuilder::new(String::from("a"), String::from("b"));
    assert!(builder.accept.is_none());
    assert!(builder.exclude.is_none());
    let dir = builder
        .accept(vec![String::from("x")])
        .exclude(vec![String::from("y")])
        .build();
    assert_eq!(dir.accept, Some(vec![String::from("x")]));
    assert_eq!(dir.exclude, Some(vec![String::from("y")]));
}

#[test]
fn copy_dir_invalid_pattern_reported() {
    let dir = CopyDir::new(
        String::from("content"),
        String::from("site"),
        Some(vec![String::from("(")]),
        None,
    );
    assert!(dir.select_targets(&vec![String::from("a.png")]).is_none());
}

#[test]
fn structure_records_tree() {
    let mut s = Structure::new();
    structure::initialize(&mut s);
    assert_eq!(s.get(""), Some(structure::Node::Directory));

    // adding a file records its ancestors as directories
    assert!(structure::add_node(&mut s, "a/b/c.txt", structure::Node::File));
    assert_eq!(s.get("a"), Some(structure::Node::Directory));
    assert_eq!(s.get("a/b"), Some(structure::Node::Directory));
    assert_eq!(s.get("a/b/c.txt"), Some(structure::Node::File));

    // a directory cannot replace a file
    assert!(!structure::add_node(&mut s, "a/b/c.txt", structure::Node::Directory));
    // a file cannot replace a directory
    assert!(!structure::add_node(&mut s, "a/b", structure::Node::File));
    // recording an existing directory again is a no-op
    assert!(structure::add_node(&mut s, "a/b", structure::Node::Directory));
}
