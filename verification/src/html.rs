use vstd::prelude::*;

use crate::error::BuildError;

verus! {

/// A renderable piece of a document.
pub trait Render {
    /// The exact text this piece renders to.
    spec fn spec_render(&self) -> Seq<char>;

    fn render(&self) -> (r: Result<String, BuildError>)
        ensures
            r is Ok,
            r->Ok_0@ == self.spec_render(),
    ;
}

/// A document node: a fragment of children, a tag element, the
/// document type declaration, or raw text spliced in unchanged.
pub enum Html {
    Fragment(ElementFragment),
    Element(SimpleElement),
    Doctype(HTML5Doctype),
    Inner(DangerouslySetInnerHTML),
}

/// A sequence of nodes rendered one after the other.
pub struct ElementFragment {
    pub children: Vec<Html>,
}

/// One tag: `<tag k="v" ...>content-or-children</tag>`.  Attributes
/// render in the order they are listed.
pub struct SimpleElement {
    pub tag: String,
    pub attributes: Vec<(String, String)>,
    pub content: Option<String>,
    pub children: Vec<Html>,
}

/// The HTML5 document type declaration.
pub struct HTML5Doctype;

/// Raw markup rendered without any escaping.
pub struct DangerouslySetInnerHTML {
    pub html: String,
}

/// One rendered attribute: a leading space, the name, `="`, the
/// value, `"`.
pub open spec fn spec_attr(p: (String, String)) -> Seq<char> {
    seq![' '] + p.0@ + "=\""@ + p.1@ + "\""@
}

/// The rendered attribute list: each attribute rendered with its
/// leading space, joined by single spaces.
pub open spec fn spec_attrs(s: Seq<(String, String)>) -> Seq<char>
    decreases s.len(),
{
    if s.len() == 0 {
        Seq::empty()
    } else if s.len() == 1 {
        spec_attr(s[0])
    } else {
        spec_attrs(s.drop_last()) + " "@ + spec_attr(s.last())
    }
}

/// The text a node renders to.
pub open spec fn spec_html(h: Html) -> Seq<char>
    decreases h,
{
    match h {
        Html::Fragment(f) => spec_children(f.children@),
        Html::Element(e) => spec_element(e),
        Html::Doctype(_) => "<!DOCTYPE html>"@,
        Html::Inner(x) => x.html@,
    }
}

/// The text a list of nodes renders to, in order.
pub open spec fn spec_children(s: Seq<Html>) -> Seq<char>
    decreases s,
{
    if s.len() == 0 {
        Seq::empty()
    } else {
        spec_children(s.drop_last()) + spec_html(s.last())
    }
}

/// The text an element renders to: the opening tag with its
/// attributes, then its literal content or its rendered children,
/// then the closing tag.
pub open spec fn spec_element(e: SimpleElement) -> Seq<char>
    decreases e,
{
    "<"@ + e.tag@ + spec_attrs(e.attributes@) + ">"@ + (match e.content {
        Some(c) => c@,
        None => spec_children(e.children@),
    }) + "</"@ + e.tag@ + ">"@
}

/// Renders an attribute list; see `spec_attrs`.
fn render_attrs(attrs: &Vec<(String, String)>) -> (r: String)
    ensures
        r@ == spec_attrs(attrs@),
{
    let mut r = String::new();
    let mut i: usize = 0;
    while i < attrs.len()
        invariant
            i <= attrs@.len(),
            r@ == spec_attrs(attrs@.subrange(0, i as int)),
        decreases attrs@.len() - i,
    {
        let ghost pre = attrs@.subrange(0, i as int);
        if i > 0 {
            r.append(" ");
        }
        r.append(" ");
        r.append(attrs[i].0.as_str());
        r.append("=\"");
        r.append(attrs[i].1.as_str());
        r.append("\"");
        proof {
            let cur = attrs@.subrange(0, i as int + 1);
            assert(cur.drop_last() =~= pre);
            assert(cur.last() == attrs@[i as int]);
            reveal_strlit(" ");
            assert(" "@ =~= seq![' ']);
            if i == 0 {
                assert(r@ =~= spec_attr(attrs@[0]));
                assert(spec_attrs(cur) == spec_attr(cur[0]));
            } else {
                assert(r@ =~= spec_attrs(pre) + " "@ + spec_attr(attrs@[i as int]));
            }
        }
        i += 1;
    }
    proof {
        assert(attrs@.subrange(0, attrs@.len() as int) =~= attrs@);
    }
    r
}

impl Html {
    /// Renders this node; see `spec_html`.
    pub fn to_text(&self) -> (r: String)
        ensures
            r@ == spec_html(*self),
        decreases *self,
    {
        match self {
            Html::Fragment(f) => render_children(&f.children),
            Html::Element(e) => {
                let attrs = render_attrs(&e.attributes);
                let mut r = String::new();
                r.append("<");
                r.append(e.tag.as_str());
                r.append(attrs.as_str());
                r.append(">");
                match &e.content {
                    Some(c) => {
                        r.append(c.as_str());
                    },
                    None => {
                        let inner = render_children(&e.children);
                        r.append(inner.as_str());
                    },
                }
                r.append("</");
                r.append(e.tag.as_str());
                r.append(">");
                r
            },
            Html::Doctype(_) => String::from_str("<!DOCTYPE html>"),
            Html::Inner(x) => x.html.clone(),
        }
    }
}

/// Renders a list of nodes in order; see `spec_children`.
fn render_children(children: &Vec<Html>) -> (r: String)
    ensures
        r@ == spec_children(children@),
    decreases children@,
{
    let mut r = String::new();
    let mut i: usize = 0;
    while i < children.len()
        invariant
            i <= children@.len(),
            r@ == spec_children(children@.subrange(0, i as int)),
        decreases children@.len() - i,
    {
        let ghost pre = children@.subrange(0, i as int);
        let piece = children[i].to_text();
        r.append(piece.as_str());
        proof {
            let cur = children@.subrange(0, i as int + 1);
            assert(cur.drop_last() =~= pre);
            assert(cur.last() == children@[i as int]);
        }
        i += 1;
    }
    proof {
        assert(children@.subrange(0, children@.len() as int) =~= children@);
    }
    r
}

impl Render for ElementFragment {
    open spec fn spec_render(&self) -> Seq<char> {
        spec_children(self.children@)
    }

    fn render(&self) -> (r: Result<String, BuildError>)
        ensures
            r is Ok,
            r->Ok_0@ == self.spec_render(),
    {
        Ok(render_children(&self.children))
    }
}

impl Render for SimpleElement {
    open spec fn spec_render(&self) -> Seq<char> {
        spec_element(*self)
    }

    fn render(&self) -> (r: Result<String, BuildError>)
        ensures
            r is Ok,
            r->Ok_0@ == self.spec_render(),
    {
        let attrs = render_attrs(&self.attributes);
        let mut r = String::new();
        r.append("<");
        r.append(self.tag.as_str());
        r.append(attrs.as_str());
        r.append(">");
        match &self.content {
            Some(c) => {
                r.append(c.as_str());
            },
            None => {
                let inner = render_children(&self.children);
                r.append(inner.as_str());
            },
        }
        r.append("</");
        r.append(self.tag.as_str());
        r.append(">");
        Ok(r)
    }
}

impl Render for HTML5Doctype {
    open spec fn spec_render(&self) -> Seq<char> {
        "<!DOCTYPE html>"@
    }

    fn render(&self) -> (r: Result<String, BuildError>)
        ensures
            r is Ok,
            r->Ok_0@ == self.spec_render(),
    {
        Ok(String::from_str("<!DOCTYPE html>"))
    }
}

impl Render for DangerouslySetInnerHTML {
    open spec fn spec_render(&self) -> Seq<char> {
        self.html@
    }

    fn render(&self) -> (r: Result<String, BuildError>)
        ensures
            r is Ok,
            r->Ok_0@ == self.spec_render(),
    {
        Ok(self.html.clone())
    }
}

/// A rendered document written to a destination path: the build loop
/// writes `content()` to `destination`.
pub struct RenderFile {
    pub destination: String,
    pub element: Html,
}

impl RenderFile {
    pub fn new(destination: String, element: Html) -> (r: RenderFile)
        ensures
            r.destination == destination,
            r.element == element,
    {
        RenderFile { destination, element }
    }

    /// The text to write to the destination.
    pub fn content(&self) -> (r: String)
        ensures
            r@ == spec_html(self.element),
    {
        self.element.to_text()
    }
}

} // verus!
