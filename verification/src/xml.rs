//! A plain element tree: what the importer reads of an XML document. Element
//! names, attributes in order, the first text node, and the element children.
use vstd::prelude::*;
use crate::text::str_eq;

verus! {

/// One element: its tag name, attributes, first text node, and element
/// children, all in document order.
#[derive(Debug)]
pub struct XmlElem {
    pub name: String,
    pub attrs: Vec<(String, String)>,
    pub text: Option<String>,
    pub children: Vec<XmlElem>,
}

/// The value of the first attribute with this name, if any.
pub open spec fn attr_of(attrs: Seq<(String, String)>, name: Seq<char>) -> Option<Seq<char>>
    decreases attrs.len(),
{
    if attrs.len() == 0 {
        None
    } else if attrs[0].0@ == name {
        Some(attrs[0].1@)
    } else {
        attr_of(attrs.drop_first(), name)
    }
}

/// The value of the element's attribute with this name, if any.
pub open spec fn elem_attr(e: XmlElem, name: Seq<char>) -> Option<Seq<char>> {
    attr_of(e.attrs@, name)
}

/// The first child element with this tag name, if any.
pub open spec fn first_named(children: Seq<XmlElem>, name: Seq<char>) -> Option<XmlElem>
    decreases children.len(),
{
    if children.len() == 0 {
        None
    } else if children[0].name@ == name {
        Some(children[0])
    } else {
        first_named(children.drop_first(), name)
    }
}

/// Looks an attribute up by name.
pub fn get_attr<'a>(e: &'a XmlElem, name: &str) -> (r: Option<&'a String>)
    ensures
        match r {
            Some(v) => elem_attr(*e, name@) == Some(v@),
            None => elem_attr(*e, name@) is None,
        },
{
    let mut i: usize = 0;
    proof {
        assert(e.attrs@.skip(0) =~= e.attrs@);
    }
    loop
        invariant
            i <= e.attrs.len(),
            attr_of(e.attrs@, name@) == attr_of(e.attrs@.skip(i as int), name@),
        decreases e.attrs.len() - i,
    {
        if i >= e.attrs.len() {
            proof {
                assert(e.attrs@.skip(i as int) =~= Seq::<(String, String)>::empty());
            }
            return None;
        }
        proof {
            assert(e.attrs@.skip(i as int)[0] == e.attrs@[i as int]);
            assert(e.attrs@.skip(i as int).drop_first() =~= e.attrs@.skip(i + 1));
        }
        if str_eq(e.attrs[i].0.as_str(), name) {
            return Some(&e.attrs[i].1);
        }
        i = i + 1;
    }
}

/// Finds the first child element with this tag name.
pub fn find_child<'a>(e: &'a XmlElem, name: &str) -> (r: Option<&'a XmlElem>)
    ensures
        match r {
            Some(c) => first_named(e.children@, name@) == Some(*c),
            None => first_named(e.children@, name@) is None,
        },
{
    let mut i: usize = 0;
    proof {
        assert(e.children@.skip(0) =~= e.children@);
    }
    loop
        invariant
            i <= e.children.len(),
            first_named(e.children@, name@) == first_named(e.children@.skip(i as int), name@),
        decreases e.children.len() - i,
    {
        if i >= e.children.len() {
            proof {
                assert(e.children@.skip(i as int) =~= Seq::<XmlElem>::empty());
            }
            return None;
        }
        proof {
            assert(e.children@.skip(i as int)[0] == e.children@[i as int]);
            assert(e.children@.skip(i as int).drop_first() =~= e.children@.skip(i + 1));
        }
        if str_eq(e.children[i].name.as_str(), name) {
            return Some(&e.children[i]);
        }
        i = i + 1;
    }
}

/// What the XML parser yields for a document text: the element tree, or
/// nothing when the text is not well-formed XML.
pub uninterp spec fn xml_doc(s: Seq<char>) -> Option<XmlElem>;

#[verifier::external_type_specification]
#[verifier::external_body]
pub struct ExNode<'a, 'input: 'a>(roxmltree::Node<'a, 'input>);

/// Relies on roxmltree::Node's accessors: copies one parsed element into the
/// library's tree, node for node, keeping element children only.
#[verifier::external_body]
fn convert_node(node: roxmltree::Node<'_, '_>) -> XmlElem {
    XmlElem {
        name: node.tag_name().name().to_string(),
        attrs: node.attributes().map(|a| (a.name().to_string(), a.value().to_string())).collect(),
        text: node.text().map(|t| t.to_string()),
        children: node.children().filter(|n| n.is_element()).map(convert_node).collect(),
    }
}

/// Relies on roxmltree::Document::parse_with_options, with DTDs allowed: the
/// parse result depends on the text alone.
#[verifier::external_body]
pub fn parse_document(text: &str) -> (r: Result<XmlElem, String>)
    ensures
        match r {
            Ok(t) => xml_doc(text@) == Some(t),
            Err(_) => xml_doc(text@) is None,
        },
{
    let options = roxmltree::ParsingOptions { allow_dtd: true, ..Default::default() };
    match roxmltree::Document::parse_with_options(text, options) {
        Ok(d) => Ok(convert_node(d.root())),
        Err(e) => Err(format!("{}", e)),
    }
}

} // verus!
