//! Nodes of a document: the executable type, its mathematical model, and the
//! operations on one node (class test, depth-first search, rendering).
use vstd::prelude::*;
use vstd::string::StringExecFns;
use crate::text::{chars_of, is_space, is_space_char, push_char, push_str, trim, trimmed};
use crate::xml::Xml;

verus! {

/// An attribute list: name and value pairs.
pub type Attrs = Seq<(Seq<char>, Seq<char>)>;

/// The mathematical model of a node: an element when `name` is not empty,
/// a text node otherwise.
#[verifier::ext_equal]
pub struct Tree {
    pub name: Seq<char>,
    pub text: Seq<char>,
    pub attributes: Attrs,
    pub children: Seq<Tree>,
}

/// An element with the given name, attributes and children.
pub open spec fn element(name: Seq<char>, attributes: Attrs, children: Seq<Tree>) -> Tree {
    Tree { name, text: Seq::empty(), attributes, children }
}

/// A text node holding `text`.
pub open spec fn text_node(text: Seq<char>) -> Tree {
    Tree { name: Seq::empty(), text, attributes: Seq::empty(), children: Seq::empty() }
}

/// The value of the first attribute named `key`.
pub open spec fn attr_get(a: Attrs, key: Seq<char>) -> Option<Seq<char>>
    decreases a.len(),
{
    if a.len() == 0 {
        None
    } else if a[0].0 == key {
        Some(a[0].1)
    } else {
        attr_get(a.drop_first(), key)
    }
}

/// `a` with `key` bound to `value`: the first entry of that name is
/// replaced, or the pair is appended when there is none.
pub open spec fn attr_insert(a: Attrs, key: Seq<char>, value: Seq<char>) -> Attrs
    decreases a.len(),
{
    if a.len() == 0 {
        seq![(key, value)]
    } else if a[0].0 == key {
        a.update(0, (key, value))
    } else {
        seq![a[0]] + attr_insert(a.drop_first(), key, value)
    }
}

/// No two entries of `a` share a name.
pub open spec fn keys_unique(a: Attrs) -> bool {
    forall|i: int, j: int| 0 <= i < j < a.len() ==> a[i].0 != a[j].0
}

/// The list of attribute pairs given, bound one after the other.
pub open spec fn attrs_from(pairs: Attrs) -> Attrs
    decreases pairs.len(),
{
    if pairs.len() == 0 {
        Seq::empty()
    } else {
        attr_insert(attrs_from(pairs.drop_last()), pairs.last().0, pairs.last().1)
    }
}

/// A node is an element, or a text node without attributes and children;
/// attribute names are unique; and so on for every node below it.
pub open spec fn well_formed(t: Tree) -> bool
    decreases t,
{
    &&& (t.name.len() == 0 ==> t.attributes.len() == 0 && t.children.len() == 0)
    &&& (t.name.len() > 0 ==> t.text.len() == 0)
    &&& keys_unique(t.attributes)
    &&& forall|i: int| 0 <= i < t.children.len() ==> well_formed(#[trigger] t.children[i])
}

/// `t` is a run of `t.len()` characters of `s` starting at `i`, with white
/// space or an end of `s` on both sides.
pub open spec fn token_at(s: Seq<char>, t: Seq<char>, i: int) -> bool {
    &&& 0 <= i
    &&& i + t.len() <= s.len()
    &&& s.subrange(i, i + t.len()) == t
    &&& (i == 0 || is_space(s[i - 1]))
    &&& (i + t.len() == s.len() || is_space(s[i + t.len()]))
}

/// `t` is one of the white-space separated words of `s`.
pub open spec fn has_token(s: Seq<char>, t: Seq<char>) -> bool {
    &&& t.len() > 0
    &&& forall|k: int| 0 <= k < t.len() ==> !is_space(#[trigger] t[k])
    &&& exists|i: int| token_at(s, t, i)
}

/// The name of the attribute that holds a node's classes.
pub open spec fn class_key() -> Seq<char> {
    seq!['c', 'l', 'a', 's', 's']
}

/// `class` is one of the words of the node's `class` attribute.
pub open spec fn tree_has_class(t: Tree, class: Seq<char>) -> bool {
    match attr_get(t.attributes, class_key()) {
        Some(v) => has_token(v, class),
        None => false,
    }
}

/// What a search selects.
#[derive(Debug)]
pub enum Query {
    /// Nodes with exactly this name.
    ByName(String),
    /// Nodes whose `class` attribute holds this word.
    ByClass(String),
}

/// The model of a query.
pub enum Pick {
    Name(Seq<char>),
    Class(Seq<char>),
}

impl View for Query {
    type V = Pick;

    open spec fn view(&self) -> Pick {
        match self {
            Query::ByName(n) => Pick::Name(n@),
            Query::ByClass(c) => Pick::Class(c@),
        }
    }
}

/// Whether `q` selects `t`.
pub open spec fn selects(q: Pick, t: Tree) -> bool {
    match q {
        Pick::Name(n) => t.name == n,
        Pick::Class(c) => tree_has_class(t, c),
    }
}

/// The nodes of `t` that `q` selects, in depth-first pre-order.
pub open spec fn collect(t: Tree, q: Pick) -> Seq<Tree>
    decreases t, 1nat,
{
    (if selects(q, t) {
        seq![t]
    } else {
        Seq::empty()
    }) + collect_all(t.children, q)
}

/// The nodes of the trees `ts` that `q` selects, tree after tree.
pub open spec fn collect_all(ts: Seq<Tree>, q: Pick) -> Seq<Tree>
    decreases ts, 0nat,
{
    if ts.len() == 0 {
        Seq::empty()
    } else {
        collect_all(ts.drop_last(), q) + collect(ts.last(), q)
    }
}

/// `n` spaces.
pub open spec fn indent(n: nat) -> Seq<char> {
    Seq::new(n, |i: int| ' ')
}

/// ` key="value"` for each attribute, in order.
pub open spec fn render_attrs(a: Attrs) -> Seq<char>
    decreases a.len(),
{
    if a.len() == 0 {
        Seq::empty()
    } else {
        render_attrs(a.drop_last()) + seq![' '] + a.last().0 + seq!['=', '"'] + a.last().1
            + seq!['"']
    }
}

/// The indentation of a line at depth `depth`: none in compact layout.
pub open spec fn pad(depth: nat, pretty: bool) -> Seq<char> {
    if pretty {
        indent(depth)
    } else {
        Seq::empty()
    }
}

/// A line break, or nothing in compact layout.
pub open spec fn newline(pretty: bool) -> Seq<char> {
    if pretty {
        seq!['\n']
    } else {
        Seq::empty()
    }
}

/// The markup of `t` at nesting depth `depth`. In the indented layout
/// (`pretty`) each node takes its own lines, indented one space per level:
/// one line for a text node, with its text trimmed; for an element an opening line, its children one
/// level deeper, and a closing line. The compact layout has no indentation
/// and no line breaks.
pub open spec fn markup(t: Tree, depth: nat, pretty: bool) -> Seq<char>
    decreases t, 1nat,
{
    if t.name.len() == 0 {
        pad(depth, pretty) + trim(t.text) + newline(pretty)
    } else {
        pad(depth, pretty) + seq!['<'] + t.name + render_attrs(t.attributes) + seq!['>']
            + newline(pretty) + markup_all(t.children, depth + 1, pretty) + pad(depth, pretty)
            + seq!['<', '/'] + t.name + seq!['>'] + newline(pretty)
    }
}

/// The markup of the trees `ts`, one after the other, at depth `depth`.
pub open spec fn markup_all(ts: Seq<Tree>, depth: nat, pretty: bool) -> Seq<char>
    decreases ts, 0nat,
{
    if ts.len() == 0 {
        Seq::empty()
    } else {
        markup_all(ts.drop_last(), depth, pretty) + markup(ts.last(), depth, pretty)
    }
}

/// The indented markup of `t` at depth `depth`.
pub open spec fn render(t: Tree, depth: nat) -> Seq<char> {
    markup(t, depth, true)
}

/// The indented markup of the trees `ts`, one after the other.
pub open spec fn render_all(ts: Seq<Tree>, depth: nat) -> Seq<char> {
    markup_all(ts, depth, true)
}

/// The two attribute lists have the same length and each attribute of `a`
/// has the same value in `b`: with unique names, the same set of pairs in
/// any order.
pub open spec fn same_attrs(a: Attrs, b: Attrs) -> bool {
    &&& a.len() == b.len()
    &&& forall|i: int| 0 <= i < a.len() ==> attr_get(b, #[trigger] a[i].0) == Some(a[i].1)
}

/// The two trees have the same names, text, attributes (in any order) and
/// children, and so on below.
pub open spec fn same_tree(a: Tree, b: Tree) -> bool
    decreases a,
{
    &&& a.name == b.name
    &&& a.text == b.text
    &&& same_attrs(a.attributes, b.attributes)
    &&& a.children.len() == b.children.len()
    &&& forall|i: int|
        0 <= i < a.children.len() ==> same_tree(#[trigger] a.children[i], b.children[i])
}

/// A node of a parsed document.
#[derive(Debug)]
pub struct XmlNode {
    name: String,
    text: String,
    children: Vec<XmlNode>,
    attributes: Vec<(String, String)>,
}

/// The model of an attribute pair.
pub open spec fn pair_view(p: (String, String)) -> (Seq<char>, Seq<char>) {
    (p.0@, p.1@)
}

/// The model of an attribute list.
pub open spec fn pairs_view(v: Seq<(String, String)>) -> Attrs {
    v.map_values(|p: (String, String)| pair_view(p))
}

/// The models of the nodes `v`.
pub open spec fn views(v: Seq<XmlNode>) -> Seq<Tree> {
    v.map_values(|n: XmlNode| n@)
}

impl View for XmlNode {
    type V = Tree;

    closed spec fn view(&self) -> Tree
        decreases self,
    {
        Tree {
            name: self.name@,
            text: self.text@,
            attributes: pairs_view(self.attributes@),
            children: Seq::new(
                self.children.len() as nat,
                |i: int|
                    if 0 <= i < self.children.len() {
                        self.children[i].view()
                    } else {
                        text_node(Seq::empty())
                    },
            ),
        }
    }
}

/// `attr_get` skips entries of other names.
proof fn lemma_attr_get_skip(a: Attrs, key: Seq<char>, j: int)
    requires
        0 <= j <= a.len(),
        forall|m: int| 0 <= m < j ==> a[m].0 != key,
    ensures
        attr_get(a, key) == attr_get(a.skip(j), key),
    decreases j,
{
    if j > 0 {
        lemma_attr_get_skip(a.drop_first(), key, j - 1);
        assert(a.drop_first().skip(j - 1) =~= a.skip(j));
    } else {
        assert(a.skip(0) =~= a);
    }
}

/// `attr_insert` replaces the first entry named `key`, at `j`, or appends
/// when `j` is the length.
pub(crate) proof fn lemma_attr_insert_at(a: Attrs, key: Seq<char>, value: Seq<char>, j: int)
    requires
        0 <= j <= a.len(),
        forall|m: int| 0 <= m < j ==> a[m].0 != key,
        j < a.len() ==> a[j].0 == key,
    ensures
        j < a.len() ==> attr_insert(a, key, value) == a.update(j, (key, value)),
        j == a.len() ==> attr_insert(a, key, value) == a.push((key, value)),
    decreases j,
{
    if j > 0 {
        lemma_attr_insert_at(a.drop_first(), key, value, j - 1);
        if j < a.len() {
            assert(seq![a[0]] + a.drop_first().update(j - 1, (key, value)) =~= a.update(
                j,
                (key, value),
            ));
        } else {
            assert(seq![a[0]] + a.drop_first().push((key, value)) =~= a.push((key, value)));
        }
    } else if a.len() == 0 {
        assert(seq![(key, value)] =~= a.push((key, value)));
    }
}

/// The index of the first pair of `a` named `key`, or the length of `a`.
fn find_key(a: &Vec<(String, String)>, key: &String) -> (j: usize)
    ensures
        j <= a.len(),
        forall|m: int| 0 <= m < j ==> a@[m].0@ != key@,
        j < a.len() ==> a@[j as int].0@ == key@,
{
    let mut j: usize = 0;
    while j < a.len()
        invariant
            j <= a.len(),
            forall|m: int| 0 <= m < j ==> a@[m].0@ != key@,
        decreases a.len() - j,
    {
        if a[j].0 == *key {
            return j;
        }
        j += 1;
    }
    j
}

/// Binds `key` to `value` in `a`, as `attr_insert` does.
pub(crate) fn insert_attr(a: &mut Vec<(String, String)>, key: String, value: String)
    ensures
        pairs_view(final(a)@) == attr_insert(pairs_view(old(a)@), key@, value@),
{
    let ghost va = pairs_view(old(a)@);
    let j = find_key(a, &key);
    proof {
        lemma_attr_insert_at(va, key@, value@, j as int);
    }
    if j < a.len() {
        a.set(j, (key, value));
        assert(pairs_view(a@) =~= va.update(j as int, (key@, value@)));
    } else {
        a.push((key, value));
        assert(pairs_view(a@) =~= va.push((key@, value@)));
    }
}

/// `attr_insert` keeps names unique.
pub(crate) proof fn lemma_attr_insert_unique(a: Attrs, key: Seq<char>, value: Seq<char>)
    requires
        keys_unique(a),
    ensures
        keys_unique(attr_insert(a, key, value)),
        forall|m: int|
            0 <= m < attr_insert(a, key, value).len() ==> (#[trigger] attr_insert(
                a,
                key,
                value,
            )[m].0 == key || exists|l: int| 0 <= l < a.len() && a[l].0 == attr_insert(
                a,
                key,
                value,
            )[m].0),
    decreases a.len(),
{
    if a.len() > 0 && a[0].0 != key {
        let r = attr_insert(a.drop_first(), key, value);
        lemma_attr_insert_unique(a.drop_first(), key, value);
        let s = seq![a[0]] + r;
        assert forall|m: int| 0 <= m < s.len() implies s[m].0 == key || exists|l: int|
            0 <= l < a.len() && a[l].0 == s[m].0 by {
            if m > 0 {
                assert(r[m - 1] == s[m]);
                if r[m - 1].0 != key {
                    let l = choose|l: int|
                        0 <= l < a.drop_first().len() && a.drop_first()[l].0 == r[m - 1].0;
                    assert(a[l + 1].0 == s[m].0);
                }
            } else {
                assert(a[0].0 == s[0].0);
            }
        }
        assert forall|i: int, j: int| 0 <= i < j < s.len() implies s[i].0 != s[j].0 by {
            if i == 0 {
                assert(r[j - 1] == s[j]);
                if r[j - 1].0 != key {
                    let l = choose|l: int|
                        0 <= l < a.drop_first().len() && a.drop_first()[l].0 == r[j - 1].0;
                    assert(a[l + 1].0 == s[j].0);
                }
            } else {
                assert(r[i - 1] == s[i] && r[j - 1] == s[j]);
            }
        }
    } else if a.len() > 0 {
        let s = a.update(0, (key, value));
        assert forall|m: int| 0 <= m < s.len() implies s[m].0 == key || exists|l: int|
            0 <= l < a.len() && a[l].0 == s[m].0 by {
            if m > 0 {
                assert(a[m].0 == s[m].0);
            }
        }
    }
}

/// The pairs of `v`, bound one after the other.
fn attrs_from_vec(v: Vec<(String, String)>) -> (r: Vec<(String, String)>)
    ensures
        pairs_view(r@) == attrs_from(pairs_view(v@)),
        keys_unique(pairs_view(r@)),
{
    let ghost pv = pairs_view(v@);
    let mut r: Vec<(String, String)> = Vec::new();
    let mut i: usize = 0;
    while i < v.len()
        invariant
            i <= v.len(),
            pv == pairs_view(v@),
            pairs_view(r@) == attrs_from(pv.subrange(0, i as int)),
            keys_unique(pairs_view(r@)),
        decreases v.len() - i,
    {
        let key = v[i].0.clone();
        let value = v[i].1.clone();
        proof {
            lemma_attr_insert_unique(pairs_view(r@), key@, value@);
            assert(pv.subrange(0, i + 1).drop_last() =~= pv.subrange(0, i as int));
        }
        insert_attr(&mut r, key, value);
        i += 1;
    }
    assert(pv.subrange(0, i as int) =~= pv);
    r
}

/// Whether the attribute lists `a` and `b` hold the same pairs.
fn same_attrs_exec(a: &Vec<(String, String)>, b: &Vec<(String, String)>) -> (r: bool)
    ensures
        r == same_attrs(pairs_view(a@), pairs_view(b@)),
{
    let ghost pa = pairs_view(a@);
    let ghost pb = pairs_view(b@);
    if a.len() != b.len() {
        return false;
    }
    let mut i: usize = 0;
    while i < a.len()
        invariant
            a.len() == b.len(),
            i <= a.len(),
            pa == pairs_view(a@),
            pb == pairs_view(b@),
            forall|k: int| 0 <= k < i ==> attr_get(pb, #[trigger] pa[k].0) == Some(pa[k].1),
        decreases a.len() - i,
    {
        let j = find_key(b, &a[i].0);
        proof {
            lemma_attr_get_skip(pb, pa[i as int].0, j as int);
            if j < b.len() {
                assert(pb.skip(j as int)[0] == pb[j as int]);
            } else {
                assert(pb.skip(j as int).len() == 0);
            }
        }
        if j == b.len() || b[j].1 != a[i].1 {
            return false;
        }
        i += 1;
    }
    true
}

impl XmlNode {
    /// Whether the two nodes are the same tree, attributes compared in any
    /// order.
    pub fn same_as(&self, other: &XmlNode) -> (r: bool)
        ensures
            r == same_tree(self@, other@),
        decreases self,
    {
        if self.name != other.name || self.text != other.text || !same_attrs_exec(
            &self.attributes,
            &other.attributes,
        ) || self.children.len() != other.children.len() {
            return false;
        }
        let mut i: usize = 0;
        while i < self.children.len()
            invariant
                i <= self.children.len(),
                self.children.len() == other.children.len(),
                forall|k: int|
                    0 <= k < i ==> same_tree(#[trigger] self@.children[k], other@.children[k]),
            decreases self.children.len() - i,
        {
            assert(self@.children[i as int] == self.children@[i as int]@);
            assert(other@.children[i as int] == other.children@[i as int]@);
            if !self.children[i].same_as(&other.children[i]) {
                return false;
            }
            i += 1;
        }
        true
    }
}

impl PartialEq for XmlNode {
    fn eq(&self, other: &XmlNode) -> (r: bool) {
        self.same_as(other)
    }
}

impl vstd::std_specs::cmp::PartialEqSpecImpl for XmlNode {
    open spec fn obeys_eq_spec() -> bool {
        true
    }

    open spec fn eq_spec(&self, other: &XmlNode) -> bool {
        same_tree(self@, other@)
    }
}

impl Default for XmlNode {
    /// A text node with no text.
    fn default() -> (r: XmlNode)
        ensures
            r@ == text_node(Seq::empty()),
            well_formed(r@),
    {
        let r = XmlNode {
            name: String::new(),
            text: String::new(),
            children: Vec::new(),
            attributes: Vec::new(),
        };
        assert(r@.children =~= Seq::<Tree>::empty());
        assert(r@.attributes =~= Attrs::empty());
        r
    }
}

impl Clone for XmlNode {
    fn clone(&self) -> (r: Self)
        ensures
            r@ == self@,
        decreases self,
    {
        let mut children: Vec<XmlNode> = Vec::new();
        let mut i: usize = 0;
        while i < self.children.len()
            invariant
                i <= self.children.len(),
                children.len() == i,
                forall|k: int| 0 <= k < i ==> (#[trigger] children@[k])@ == self.children@[k]@,
            decreases self.children.len() - i,
        {
            children.push(self.children[i].clone());
            i += 1;
        }
        let mut attributes: Vec<(String, String)> = Vec::new();
        let mut j: usize = 0;
        while j < self.attributes.len()
            invariant
                j <= self.attributes.len(),
                attributes.len() == j,
                forall|k: int|
                    0 <= k < j ==> pair_view(#[trigger] attributes@[k]) == pair_view(
                        self.attributes@[k],
                    ),
            decreases self.attributes.len() - j,
        {
            let (k, v) = (self.attributes[j].0.clone(), self.attributes[j].1.clone());
            attributes.push((k, v));
            j += 1;
        }
        let r = XmlNode { name: self.name.clone(), text: self.text.clone(), children, attributes };
        assert(r@.children =~= self@.children);
        assert(r@.attributes =~= self@.attributes);
        r
    }
}

/// Whether `t` stands in `s` at `i`.
fn matches_at(s: &Vec<char>, t: &Vec<char>, i: usize) -> (r: bool)
    requires
        i + t.len() <= s.len(),
    ensures
        r == (s@.subrange(i as int, i + t.len()) == t@),
{
    let mut k: usize = 0;
    while k < t.len()
        invariant
            i + t.len() <= s.len(),
            k <= t.len(),
            forall|m: int| 0 <= m < k ==> s@[i + m] == t@[m],
        decreases t.len() - k,
    {
        if s[i + k] != t[k] {
            assert(s@.subrange(i as int, i + t.len())[k as int] != t@[k as int]);
            return false;
        }
        k += 1;
    }
    assert(s@.subrange(i as int, i + t.len()) =~= t@);
    true
}

/// Whether `t` is one of the white-space separated words of `s`.
pub fn has_token_exec(s: &Vec<char>, t: &Vec<char>) -> (r: bool)
    ensures
        r == has_token(s@, t@),
{
    if t.len() == 0 {
        return false;
    }
    let mut k: usize = 0;
    while k < t.len()
        invariant
            k <= t.len(),
            forall|m: int| 0 <= m < k ==> !is_space(#[trigger] t@[m]),
        decreases t.len() - k,
    {
        if is_space_char(t[k]) {
            return false;
        }
        k += 1;
    }
    if t.len() > s.len() {
        return false;
    }
    let last = s.len() - t.len();
    let mut i: usize = 0;
    while i <= last
        invariant
            0 < t.len() <= s.len(),
            last == s.len() - t.len(),
            i <= last + 1,
            forall|m: int| 0 <= m < t.len() ==> !is_space(#[trigger] t@[m]),
            forall|j: int| 0 <= j < i ==> !token_at(s@, t@, j),
        decreases s.len() - i,
    {
        let before = i == 0 || is_space_char(s[i - 1]);
        let after = i + t.len() == s.len() || is_space_char(s[i + t.len()]);
        if before && after && matches_at(s, t, i) {
            assert(token_at(s@, t@, i as int));
            return true;
        }
        i += 1;
    }
    false
}

impl XmlNode {
    /// An element named `name`, without attributes and children.
    pub fn new(name: &str) -> (r: XmlNode)
        ensures
            r@ == element(name@, Seq::empty(), Seq::empty()),
            well_formed(r@),
    {
        let r = XmlNode {
            name: String::from_str(name),
            text: String::new(),
            children: Vec::new(),
            attributes: Vec::new(),
        };
        assert(r@.children =~= Seq::<Tree>::empty());
        assert(r@.attributes =~= Attrs::empty());
        r
    }

    /// A text node holding `text`.
    pub fn new_text(text: &str) -> (r: XmlNode)
        ensures
            r@ == text_node(text@),
            well_formed(r@),
    {
        let r = XmlNode {
            name: String::new(),
            text: String::from_str(text),
            children: Vec::new(),
            attributes: Vec::new(),
        };
        assert(r@.children =~= Seq::<Tree>::empty());
        assert(r@.attributes =~= Attrs::empty());
        r
    }

    /// An element named `name` with the given children and no attributes.
    pub fn new_with_children(name: &str, children: Vec<XmlNode>) -> (r: XmlNode)
        ensures
            r@ == element(name@, Seq::empty(), views(children@)),
            name@.len() > 0 && (forall|i: int|
                0 <= i < children.len() ==> well_formed(#[trigger] children@[i]@)) ==> well_formed(
                r@,
            ),
    {
        let r = XmlNode {
            name: String::from_str(name),
            text: String::new(),
            children,
            attributes: Vec::new(),
        };
        assert(r@.children =~= views(children@));
        assert(r@.attributes =~= Attrs::empty());
        r
    }

    /// An element named `name` without children, whose attributes are the
    /// pairs given bound in order (a later pair of a name wins).
    pub fn new_with_attributes(name: &str, attributes: Vec<(String, String)>) -> (r: XmlNode)
        ensures
            r@ == element(
                name@,
                attrs_from(pairs_view(attributes@)),
                Seq::empty(),
            ),
            keys_unique(r@.attributes),
            name@.len() > 0 ==> well_formed(r@),
    {
        let r = XmlNode {
            name: String::from_str(name),
            text: String::new(),
            children: Vec::new(),
            attributes: attrs_from_vec(attributes),
        };
        assert(r@.children =~= Seq::<Tree>::empty());
        r
    }

    /// An element named `name` with the attribute list `attributes` as it
    /// stands, and no children.
    pub(crate) fn element_node(name: String, attributes: Vec<(String, String)>) -> (r: XmlNode)
        ensures
            r@ == element(
                name@,
                pairs_view(attributes@),
                Seq::empty(),
            ),
    {
        let r = XmlNode { name, text: String::new(), children: Vec::new(), attributes };
        assert(r@.children =~= Seq::<Tree>::empty());
        r
    }

    /// The node's name; empty for a text node.
    pub fn name(&self) -> (r: &str)
        ensures
            r@ == self@.name,
    {
        self.name.as_str()
    }

    /// Whether `needle` is one of the white-space separated words of the
    /// node's `class` attribute.
    pub fn has_class(&self, needle: &str) -> (r: bool)
        ensures
            r == tree_has_class(self@, needle@),
    {
        let key = String::from_str("class");
        proof {
            reveal_strlit("class");
            assert(key@ =~= class_key());
            assert(self@.attributes == pairs_view(self.attributes@));
        }
        let j = find_key(&self.attributes, &key);
        proof {
            lemma_attr_get_skip(self@.attributes, class_key(), j as int);
        }
        if j == self.attributes.len() {
            assert(self@.attributes.skip(j as int).len() == 0);
            return false;
        }
        assert(self@.attributes.skip(j as int)[0] == self@.attributes[j as int]);
        let value = chars_of(self.attributes[j].1.as_str());
        let word = chars_of(needle);
        has_token_exec(&value, &word)
    }

    /// Whether `q` selects this node.
    pub fn selected_by(&self, q: &Query) -> (r: bool)
        ensures
            r == selects(q@, self@),
    {
        match q {
            Query::ByName(n) => self.name == *n,
            Query::ByClass(c) => self.has_class(c.as_str()),
        }
    }

    /// A document holding copies of the nodes below and including this one
    /// that `q` selects, in depth-first pre-order.
    pub fn search(&self, q: &Query) -> (r: Xml)
        ensures
            r@ == collect(self@, q@),
    {
        let mut items: Vec<XmlNode> = Vec::new();
        self.search_helper(q, &mut items);
        assert(views(items@) =~= collect(self@, q@));
        Xml::new(items)
    }

    /// Appends copies of the selected nodes to `result`.
    fn search_helper(&self, q: &Query, result: &mut Vec<XmlNode>)
        ensures
            views(final(result)@) == views(old(result)@) + collect(self@, q@),
        decreases self,
    {
        let ghost first = views(old(result)@);
        let ghost own = if selects(q@, self@) {
            seq![self@]
        } else {
            Seq::<Tree>::empty()
        };
        if self.selected_by(q) {
            result.push(self.clone());
        }
        assert(views(result@) =~= first + own);
        let mut i: usize = 0;
        while i < self.children.len()
            invariant
                i <= self.children.len(),
                views(result@) == first + own + collect_all(
                    self@.children.subrange(0, i as int),
                    q@,
                ),
            decreases self.children.len() - i,
        {
            let ghost mid = views(result@);
            self.children[i].search_helper(q, result);
            proof {
                let cs = self@.children.subrange(0, i + 1);
                assert(cs.drop_last() =~= self@.children.subrange(0, i as int));
                assert(cs.last() == self.children@[i as int]@);
                assert(views(result@) =~= first + own + collect_all(cs, q@));
            }
            i += 1;
        }
        assert(self@.children.subrange(0, i as int) =~= self@.children);
    }

    /// Appends `item` as the last child.
    pub fn push(&mut self, item: XmlNode)
        ensures
            final(self)@ == (Tree { children: old(self)@.children.push(item@), ..old(self)@ }),
            well_formed(old(self)@) && old(self)@.name.len() > 0 && well_formed(item@)
                ==> well_formed(final(self)@),
    {
        self.children.push(item);
        assert(self@.children =~= old(self)@.children.push(item@));
        assert forall|i: int| 0 <= i < self@.children.len() implies #[trigger] self@.children[i]
            == old(self)@.children.push(item@)[i] by {}
    }

    /// The markup of this node at nesting depth `depth`, one space of
    /// indentation for each level.
    pub fn to_string(&self, depth: usize) -> (r: String)
        ensures
            r@ == render(self@, depth as nat),
    {
        let mut pad = String::new();
        let mut k: usize = 0;
        while k < depth
            invariant
                k <= depth,
                pad@ == indent(k as nat),
            decreases depth - k,
        {
            push_char(&mut pad, ' ');
            assert(pad@ =~= indent((k + 1) as nat));
            k += 1;
        }
        let mut out = String::new();
        self.render_into(&pad, Ghost(depth as nat), &mut out);
        assert(out@ =~= render(self@, depth as nat));
        out
    }

    /// Appends the markup of this node, indented by `pad`, to `out`.
    fn render_into(&self, pad: &String, Ghost(depth): Ghost<nat>, out: &mut String)
        requires
            pad@ == indent(depth),
        ensures
            final(out)@ == old(out)@ + render(self@, depth),
        decreases self,
    {
        let ghost start = out@;
        push_str(out, pad.as_str());
        if self.name.as_str().is_empty() {
            let text = trimmed(self.text.as_str());
            push_str(out, text.as_str());
            push_char(out, '\n');
            assert(out@ =~= start + render(self@, depth));
            return;
        }
        push_char(out, '<');
        push_str(out, self.name.as_str());
        let ghost head = out@;
        let mut j: usize = 0;
        while j < self.attributes.len()
            invariant
                j <= self.attributes.len(),
                out@ == head + render_attrs(self@.attributes.subrange(0, j as int)),
            decreases self.attributes.len() - j,
        {
            push_char(out, ' ');
            push_str(out, self.attributes[j].0.as_str());
            push_char(out, '=');
            push_char(out, '"');
            push_str(out, self.attributes[j].1.as_str());
            push_char(out, '"');
            proof {
                let a = self@.attributes.subrange(0, j + 1);
                assert(a.drop_last() =~= self@.attributes.subrange(0, j as int));
                assert(a.last() == pair_view(self.attributes@[j as int]));
                assert(out@ =~= head + render_attrs(a));
            }
            j += 1;
        }
        assert(self@.attributes.subrange(0, j as int) =~= self@.attributes);
        push_char(out, '>');
        push_char(out, '\n');
        let ghost open_part = out@;
        let mut inner_pad = pad.clone();
        push_char(&mut inner_pad, ' ');
        assert(inner_pad@ =~= indent(depth + 1));
        let mut i: usize = 0;
        while i < self.children.len()
            invariant
                i <= self.children.len(),
                inner_pad@ == indent(depth + 1),
                out@ == open_part + markup_all(
                    self@.children.subrange(0, i as int),
                    depth + 1,
                    true,
                ),
            decreases self.children.len() - i,
        {
            assert(self@.children[i as int] == self.children@[i as int]@);
            self.children[i].render_into(&inner_pad, Ghost(depth + 1), out);
            proof {
                let cs = self@.children.subrange(0, i + 1);
                assert(cs.drop_last() =~= self@.children.subrange(0, i as int));
                assert(out@ =~= open_part + markup_all(cs, depth + 1, true));
            }
            i += 1;
        }
        assert(self@.children.subrange(0, i as int) =~= self@.children);
        push_str(out, pad.as_str());
        push_char(out, '<');
        push_char(out, '/');
        push_str(out, self.name.as_str());
        push_char(out, '>');
        push_char(out, '\n');
        assert(out@ =~= start + render(self@, depth));
    }
}

} // verus!
