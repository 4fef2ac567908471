use vstd::prelude::*;
use crate::node::{Query, Pick, Tree, XmlNode, collect, render_all, views};
use crate::scan::{parsed, scan};
use crate::text::{chars_of, string_of};
use vstd::string::StringExecFns;

verus! {

/// Why a document could not be read.
#[derive(Debug, PartialEq, Eq, Structural, Clone, Copy)]
pub enum XmlError {
    /// An element was left open, or a closing tag did not match: the offset
    /// (in characters) of the `>` that opened the element, or of the closing
    /// tag's `>` when no element was open.
    NotClosed(usize),
}

/// The model of a parse result.
pub open spec fn result_view(r: Result<Xml, XmlError>) -> Result<Seq<Tree>, nat> {
    match r {
        Ok(x) => Ok(x@),
        Err(XmlError::NotClosed(o)) => Err(o as nat),
    }
}

/// What a query string selects in the document `doc`: nothing for an empty
/// query or a document without a single root; for `.word`, the nodes of the
/// root whose class list holds `word`; otherwise the nodes of the root with
/// that name.
pub open spec fn query_result(doc: Seq<Tree>, query: Seq<char>) -> Seq<Tree> {
    if query.len() == 0 || doc.len() != 1 {
        Seq::empty()
    } else if query[0] == '.' {
        collect(doc[0], Pick::Class(query.drop_first()))
    } else {
        collect(doc[0], Pick::Name(query))
    }
}

/// A parsed document: its top-level nodes, in order.
#[derive(Debug, PartialEq)]
pub struct Xml {
    items: Vec<XmlNode>,
}

impl View for Xml {
    type V = Seq<Tree>;

    closed spec fn view(&self) -> Seq<Tree> {
        views(self.items@)
    }
}

impl Xml {
    /// A document holding `items` as its top-level nodes.
    pub fn new(items: Vec<XmlNode>) -> (r: Xml)
        ensures
            r@ == views(items@),
    {
        Xml { items }
    }

    /// Reads `input` into a document.
    pub fn parse(input: &str) -> (r: Result<Xml, XmlError>)
        ensures
            result_view(r) == parsed(input@),
    {
        let chars = chars_of(input);
        match scan(&chars) {
            Ok(doc) => Ok(doc),
            Err(offset) => Err(XmlError::NotClosed(offset)),
        }
    }

    /// The only top-level node, when there is exactly one.
    pub fn root(&self) -> (r: Option<&XmlNode>)
        ensures
            self@.len() == 1 ==> r is Some && r->0@ == self@[0],
            self@.len() != 1 ==> r is None,
    {
        if self.items.len() == 1 {
            Some(&self.items[0])
        } else {
            None
        }
    }

    /// Appends `value` as the last top-level node.
    pub(crate) fn push(&mut self, value: XmlNode)
        ensures
            final(self)@ == old(self)@.push(value@),
    {
        self.items.push(value);
        assert(views(self.items@) =~= views(old(self).items@).push(value@));
    }

    /// The markup of the top-level nodes, one after the other, at depth 0.
    pub fn to_string(&self) -> (r: String)
        ensures
            r@ == render_all(self@, 0),
    {
        let mut out = String::new();
        let mut i: usize = 0;
        while i < self.items.len()
            invariant
                i <= self.items.len(),
                out@ == render_all(self@.subrange(0, i as int), 0),
            decreases self.items.len() - i,
        {
            assert(self@[i as int] == self.items@[i as int]@);
            let s = self.items[i].to_string(0);
            out.append(s.as_str());
            assert(self@.subrange(0, i + 1).drop_last() =~= self@.subrange(0, i as int));
            i += 1;
        }
        assert(self@.subrange(0, i as int) =~= self@);
        out
    }

    /// The nodes that `query` selects (see `query_result`), copied into a new
    /// document in depth-first pre-order.
    pub fn search_query(&self, query: &str) -> (r: Xml)
        ensures
            r@ == query_result(self@, query@),
    {
        let chars = chars_of(query);
        if chars.len() == 0 || self.items.len() != 1 {
            let r = Xml::new(Vec::new());
            assert(r@ =~= Seq::<Tree>::empty());
            return r;
        }
        assert(self@[0] == self.items@[0]@);
        if chars[0] == '.' {
            let class = string_of(&chars, 1, chars.len());
            assert(chars@.subrange(1, chars.len() as int) =~= chars@.drop_first());
            self.items[0].search(&Query::ByClass(class))
        } else {
            self.items[0].search(&Query::ByName(String::from_str(query)))
        }
    }
}

impl<'a> TryFrom<&'a str> for Xml {
    type Error = XmlError;

    /// Reads `input` into a document, as `Xml::parse` does.
    fn try_from(input: &'a str) -> (r: Result<Xml, XmlError>)
        ensures
            result_view(r) == parsed(input@),
    {
        Xml::parse(input)
    }
}

impl<'a> vstd::std_specs::convert::TryFromSpecImpl<&'a str> for Xml {
    open spec fn obeys_try_from_spec() -> bool {
        false
    }

    open spec fn try_from_spec(v: &'a str) -> Result<Xml, XmlError> {
        arbitrary()
    }
}

} // verus!
