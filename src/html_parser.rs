use vstd::prelude::*;

use crate::error::SteamError;

verus! {

/// The attributes of an element that the tree keeps.
pub struct ElementInfo {
    id: String,
    class_name: String,
}

impl ElementInfo {
    /// Neither an id nor a class.
    pub closed spec fn is_blank(&self) -> bool {
        self.id@.len() == 0 && self.class_name@.len() == 0
    }
}

impl Default for ElementInfo {
    fn default() -> (r: Self)
        ensures
            r.is_blank(),
    {
        ElementInfo { id: String::new(), class_name: String::new() }
    }
}

/// A node of a document tree; every node but the root keeps its parent.
pub enum Element {
    Text(String, Box<Element>),
    Div(ElementInfo, Vec<Box<Element>>, Box<Element>),
    Body(ElementInfo, Vec<Box<Element>>, Box<Element>),
    Html(ElementInfo, Vec<Box<Element>>),
    Other(ElementInfo, Vec<Box<Element>>, Box<Element>),
}

/// The document tree of `raw`. Only a placeholder tree is built so far: one text
/// node under an empty root.
pub fn parse_html(raw: String) -> (r: Result<Element, SteamError>)
    ensures
        r matches Ok(Element::Text(text, parent)) && text@ == "This is text"@ && (
        match *parent {
            Element::Html(info, children) => info.is_blank() && children@.len() == 0,
            _ => false,
        }),
{
    let html_elem = Element::Html(ElementInfo::default(), Vec::new());
    let text = Element::Text(String::from_str("This is text"), Box::new(html_elem));
    Ok(text)
}

} // verus!
