//! The scanner: a state machine that reads markup one character at a time
//! and builds the forest of nodes with a stack of open elements.
use vstd::prelude::*;
use crate::xml::Xml;
use crate::node::{Attrs, Tree, XmlNode, attr_insert, element, pairs_view, text_node};
use crate::text::{chars_of, is_space, is_space_char, same_chars, string_of, trim_end, trimmed_len};

verus! {

/// Where the scanner stands.
#[derive(Debug, PartialEq, Eq, Structural, Clone, Copy)]
pub enum Mode {
    /// Between tags, gathering text.
    Text,
    /// Inside `<name ...`, reading the name or waiting for an attribute.
    TagStart,
    /// Reading an attribute name, up to `="`.
    AttributeName,
    /// Reading an attribute value, up to `"`.
    AttributeValue,
    /// Inside `</name`, reading the name of the element to close.
    TagEnd,
    /// After the `/` of `<name/`, waiting for `>`.
    SelfClosing,
}

/// The model of the scanner's state.
#[verifier::ext_equal]
pub struct Scan {
    pub mode: Mode,
    /// The open elements, outermost first, each with the offset of the `>`
    /// that opened it.
    pub open: Seq<(nat, Tree)>,
    /// The completed top-level nodes.
    pub done: Seq<Tree>,
    /// The tag name read so far.
    pub name: Seq<char>,
    /// The text read so far.
    pub text: Seq<char>,
    /// The attribute name read so far.
    pub attr_name: Seq<char>,
    /// The attribute value read so far.
    pub attr_value: Seq<char>,
    /// The attributes of the tag being read.
    pub attrs: Attrs,
    /// The offset that a failed match reports.
    pub failed: Option<nat>,
}

/// The state before any character.
pub open spec fn start() -> Scan {
    Scan {
        mode: Mode::Text,
        open: Seq::empty(),
        done: Seq::empty(),
        name: Seq::empty(),
        text: Seq::empty(),
        attr_name: Seq::empty(),
        attr_value: Seq::empty(),
        attrs: Seq::empty(),
        failed: None,
    }
}

/// `s` with `t` made the last child of the innermost open element, or the
/// last top-level node when none is open.
pub open spec fn attach(s: Scan, t: Tree) -> Scan {
    if s.open.len() > 0 {
        let top = s.open.last();
        Scan {
            open: s.open.update(
                s.open.len() - 1,
                (top.0, Tree { children: top.1.children.push(t), ..top.1 }),
            ),
            ..s
        }
    } else {
        Scan { done: s.done.push(t), ..s }
    }
}

/// The state after reading `input[i]` in state `s`. The next character
/// decides whether white space in a tag starts an attribute; the previous
/// one whether a `"` ends an attribute name.
pub open spec fn step(s: Scan, input: Seq<char>, i: int) -> Scan {
    let c = input[i];
    if s.failed is Some {
        s
    } else {
        match s.mode {
            Mode::Text => {
                if c == '<' {
                    let s1 = if s.text.len() > 0 && s.open.len() > 0 {
                        attach(s, text_node(trim_end(s.text)))
                    } else {
                        s
                    };
                    Scan { mode: Mode::TagStart, text: Seq::empty(), ..s1 }
                } else if !is_space(c) || s.text.len() > 0 {
                    Scan { text: s.text.push(c), ..s }
                } else {
                    s
                }
            },
            Mode::TagStart => {
                if c == '/' {
                    if s.name.len() == 0 {
                        Scan { mode: Mode::TagEnd, ..s }
                    } else {
                        Scan { mode: Mode::SelfClosing, ..s }
                    }
                } else if c == '>' {
                    Scan {
                        mode: Mode::Text,
                        open: s.open.push((i as nat, element(s.name, s.attrs, Seq::empty()))),
                        name: Seq::empty(),
                        attrs: Seq::empty(),
                        ..s
                    }
                } else if is_space(c) {
                    if i + 1 < input.len() && input[i + 1] != '>' && !is_space(input[i + 1]) {
                        Scan { mode: Mode::AttributeName, ..s }
                    } else {
                        s
                    }
                } else {
                    Scan { name: s.name.push(c), ..s }
                }
            },
            Mode::AttributeName => {
                if c == '"' && i > 0 && input[i - 1] == '=' {
                    Scan {
                        mode: Mode::AttributeValue,
                        attr_name: if s.attr_name.len() > 0 {
                            s.attr_name.drop_last()
                        } else {
                            s.attr_name
                        },
                        ..s
                    }
                } else {
                    Scan { attr_name: s.attr_name.push(c), ..s }
                }
            },
            Mode::AttributeValue => {
                if c == '"' {
                    if s.attr_name.len() > 0 && s.attr_value.len() > 0 {
                        Scan {
                            mode: Mode::TagStart,
                            attrs: attr_insert(s.attrs, s.attr_name, s.attr_value),
                            attr_name: Seq::empty(),
                            attr_value: Seq::empty(),
                            ..s
                        }
                    } else {
                        Scan { mode: Mode::TagStart, ..s }
                    }
                } else {
                    Scan { attr_value: s.attr_value.push(c), ..s }
                }
            },
            Mode::TagEnd => {
                if c == '>' {
                    if s.open.len() == 0 {
                        Scan { failed: Some(i as nat), ..s }
                    } else if s.open.last().1.name != s.name {
                        Scan { failed: Some(s.open.last().0), ..s }
                    } else {
                        attach(
                            Scan {
                                mode: Mode::Text,
                                open: s.open.drop_last(),
                                name: Seq::empty(),
                                ..s
                            },
                            s.open.last().1,
                        )
                    }
                } else {
                    Scan { name: s.name.push(c), ..s }
                }
            },
            Mode::SelfClosing => {
                if c == '>' {
                    attach(
                        Scan { mode: Mode::Text, name: Seq::empty(), attrs: Seq::empty(), ..s },
                        element(s.name, s.attrs, Seq::empty()),
                    )
                } else {
                    s
                }
            },
        }
    }
}

/// The state after reading the first `k` characters of `input`.
pub open spec fn run(input: Seq<char>, k: nat) -> Scan
    decreases k,
{
    if k == 0 {
        start()
    } else {
        step(run(input, (k - 1) as nat), input, k - 1)
    }
}

/// What reading all of `input` gives: the top-level nodes, or the offset of
/// the element that could not be matched. A failed close reports the
/// innermost open element, or the closing tag itself when none is open; at
/// the end an element left open reports the innermost one.
pub open spec fn parsed(input: Seq<char>) -> Result<Seq<Tree>, nat> {
    let s = run(input, input.len());
    if s.failed is Some {
        Err(s.failed->0)
    } else if s.open.len() > 0 {
        Err(s.open.last().0)
    } else {
        Ok(s.done)
    }
}

/// The scanner's state.
pub(crate) struct Scanner {
    mode: Mode,
    open: Vec<(usize, XmlNode)>,
    done: Xml,
    name: Vec<char>,
    text: Vec<char>,
    attr_name: Vec<char>,
    attr_value: Vec<char>,
    attrs: Vec<(String, String)>,
}

/// The model of the open-element stack.
pub open spec fn open_view(v: Seq<(usize, XmlNode)>) -> Seq<(nat, Tree)> {
    v.map_values(|p: (usize, XmlNode)| (p.0 as nat, p.1@))
}

impl View for Scanner {
    type V = Scan;

    closed spec fn view(&self) -> Scan {
        Scan {
            mode: self.mode,
            open: open_view(self.open@),
            done: self.done@,
            name: self.name@,
            text: self.text@,
            attr_name: self.attr_name@,
            attr_value: self.attr_value@,
            attrs: pairs_view(self.attrs@),
            failed: None,
        }
    }
}

impl Scanner {
    fn new() -> (r: Scanner)
        ensures
            r@ == start(),
    {
        let done = Xml::new(Vec::new());
        assert(done@ =~= Seq::<Tree>::empty());
        let r = Scanner {
            mode: Mode::Text,
            open: Vec::new(),
            done,
            name: Vec::new(),
            text: Vec::new(),
            attr_name: Vec::new(),
            attr_value: Vec::new(),
            attrs: Vec::new(),
        };
        assert(r@ =~= start());
        r
    }

    /// Makes `t` the last child of the innermost open element, or the last
    /// top-level node.
    fn attach(&mut self, t: XmlNode)
        ensures
            final(self)@ == attach(old(self)@, t@),
    {
        if self.open.len() > 0 {
            let (offset, mut top) = self.open.pop().unwrap();
            top.push(t);
            self.open.push((offset, top));
            assert(open_view(self.open@) =~= attach(old(self)@, t@).open);
        } else {
            self.done.push(t);
        }
    }

    /// Reads `input[i]`. Returns the offset to report when a closing tag
    /// fails to match.
    fn step(&mut self, input: &Vec<char>, i: usize) -> (r: Option<usize>)
        requires
            i < input.len(),
        ensures
            r is None ==> final(self)@ == step(old(self)@, input@, i as int),
            r is Some ==> step(old(self)@, input@, i as int).failed == Some(r->0 as nat),
    {
        let c = input[i];
        match self.mode {
            Mode::Text => {
                if c == '<' {
                    if self.text.len() > 0 && self.open.len() > 0 {
                        let k = trimmed_len(&self.text, self.text.len());
                        let s = string_of(&self.text, 0, k);
                        assert(self.text@.subrange(0, self.text.len() as int) =~= self.text@);
                        self.attach(XmlNode::new_text(s.as_str()));
                    }
                    self.mode = Mode::TagStart;
                    self.text = Vec::new();
                } else if !is_space_char(c) || self.text.len() > 0 {
                    self.text.push(c);
                }
            },
            Mode::TagStart => {
                if c == '/' {
                    if self.name.len() == 0 {
                        self.mode = Mode::TagEnd;
                    } else {
                        self.mode = Mode::SelfClosing;
                    }
                } else if c == '>' {
                    let n = string_of(&self.name, 0, self.name.len());
                    assert(self.name@.subrange(0, self.name.len() as int) =~= self.name@);
                    let mut attrs: Vec<(String, String)> = Vec::new();
                    std::mem::swap(&mut attrs, &mut self.attrs);
                    self.open.push((i, XmlNode::element_node(n, attrs)));
                    self.name = Vec::new();
                    self.mode = Mode::Text;
                    assert(open_view(self.open@) =~= step(old(self)@, input@, i as int).open);
                } else if is_space_char(c) {
                    if i + 1 < input.len() && input[i + 1] != '>' && !is_space_char(input[i + 1]) {
                        self.mode = Mode::AttributeName;
                    }
                } else {
                    self.name.push(c);
                }
            },
            Mode::AttributeName => {
                if c == '"' && i > 0 && input[i - 1] == '=' {
                    self.mode = Mode::AttributeValue;
                    if self.attr_name.len() > 0 {
                        self.attr_name.pop();
                    }
                } else {
                    self.attr_name.push(c);
                }
            },
            Mode::AttributeValue => {
                if c == '"' {
                    if self.attr_name.len() > 0 && self.attr_value.len() > 0 {
                        let k = string_of(&self.attr_name, 0, self.attr_name.len());
                        let v = string_of(&self.attr_value, 0, self.attr_value.len());
                        assert(self.attr_name@.subrange(0, self.attr_name.len() as int)
                            =~= self.attr_name@);
                        assert(self.attr_value@.subrange(0, self.attr_value.len() as int)
                            =~= self.attr_value@);
                        crate::node::insert_attr(&mut self.attrs, k, v);
                        self.attr_name = Vec::new();
                        self.attr_value = Vec::new();
                    }
                    self.mode = Mode::TagStart;
                } else {
                    self.attr_value.push(c);
                }
            },
            Mode::TagEnd => {
                if c == '>' {
                    if self.open.len() == 0 {
                        return Some(i);
                    }
                    let (offset, top) = self.open.pop().unwrap();
                    assert(top@ == old(self)@.open.last().1);
                    if !same_chars(&chars_of(top.name()), &self.name) {
                        return Some(offset);
                    }
                    self.name = Vec::new();
                    self.mode = Mode::Text;
                    assert(open_view(self.open@) =~= open_view(old(self).open@).drop_last());
                    self.attach(top);
                } else {
                    self.name.push(c);
                }
            },
            Mode::SelfClosing => {
                if c == '>' {
                    let n = string_of(&self.name, 0, self.name.len());
                    assert(self.name@.subrange(0, self.name.len() as int) =~= self.name@);
                    let mut attrs: Vec<(String, String)> = Vec::new();
                    std::mem::swap(&mut attrs, &mut self.attrs);
                    self.name = Vec::new();
                    self.mode = Mode::Text;
                    self.attach(XmlNode::element_node(n, attrs));
                }
            },
        }
        assert(self@ =~= step(old(self)@, input@, i as int));
        None
    }
}

/// Reads all of `input`: the top-level nodes, or the offset of the element
/// that could not be matched.
pub(crate) fn scan(input: &Vec<char>) -> (r: Result<Xml, usize>)
    ensures
        match r {
            Ok(v) => parsed(input@) == Ok::<Seq<Tree>, nat>(v@),
            Err(o) => parsed(input@) == Err::<Seq<Tree>, nat>(o as nat),
        },
{
    let mut s = Scanner::new();
    let mut i: usize = 0;
    while i < input.len()
        invariant
            i <= input.len(),
            s@ == run(input@, i as nat),
        decreases input.len() - i,
    {
        match s.step(input, i) {
            Some(offset) => {
                proof {
                    lemma_failed_stays(input@, (i + 1) as nat, input.len() as nat);
                }
                return Err(offset);
            },
            None => {},
        }
        i += 1;
    }
    if s.open.len() > 0 {
        let (offset, _) = s.open.pop().unwrap();
        return Err(offset);
    }
    Ok(s.done)
}

/// Once a match has failed, reading on changes nothing.
proof fn lemma_failed_stays(input: Seq<char>, k: nat, m: nat)
    requires
        k <= m,
        run(input, k).failed is Some,
    ensures
        run(input, m).failed == run(input, k).failed,
    decreases m - k,
{
    if m > k {
        lemma_failed_stays(input, k, (m - 1) as nat);
    }
}

} // verus!
