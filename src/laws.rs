//! Laws that relate the scanner to the renderer: markup produced from a
//! document reads back as that same document.
use vstd::prelude::*;
use crate::node::{
    Attrs, Tree, attr_insert, attrs_from, element, keys_unique, markup, markup_all, newline, pad,
    render_all, render_attrs, text_node, lemma_attr_insert_at,
};
use crate::scan::{Mode, Scan, attach, parsed, run, start, step};
use crate::text::{is_space, trim, trim_end, trim_start};

verus! {

/// The scanner's state after the first `k` characters, for a position `k`
/// written as an integer.
pub open spec fn state(input: Seq<char>, k: int) -> Scan {
    run(input, k as nat)
}

/// `x` stands in `input` at `q`.
pub open spec fn lies_at(input: Seq<char>, q: int, x: Seq<char>) -> bool {
    &&& 0 <= q
    &&& q + x.len() <= input.len()
    &&& forall|j: int| 0 <= j < x.len() ==> input[q + j] == #[trigger] x[j]
}

/// The scanner stands between nodes: no tag is partly read and no match
/// has failed. Text may be pending.
pub open spec fn ready(s: Scan) -> bool {
    &&& s.failed is None
    &&& s.mode == Mode::Text
    &&& s.name.len() == 0
    &&& s.attr_name.len() == 0
    &&& s.attr_value.len() == 0
    &&& s.attrs.len() == 0
}

/// What a `<` does to pending text: it becomes the last child of the
/// innermost open element.
pub open spec fn flush(s: Scan) -> Scan {
    let s1 = if s.text.len() > 0 && s.open.len() > 0 {
        attach(s, text_node(trim_end(s.text)))
    } else {
        s
    };
    Scan { text: Seq::empty(), ..s1 }
}

/// `s` with the trees `ts` attached one after the other.
pub open spec fn attach_all(s: Scan, ts: Seq<Tree>) -> Scan
    decreases ts.len(),
{
    if ts.len() == 0 {
        s
    } else {
        attach(attach_all(s, ts.drop_last()), ts.last())
    }
}

/// A tag name that reads back: not empty, without `/`, `>` or white space.
pub open spec fn name_fits(n: Seq<char>) -> bool {
    &&& n.len() > 0
    &&& forall|j: int| 0 <= j < n.len() ==> #[trigger] n[j] != '/' && n[j] != '>' && !is_space(n[j])
}

/// An attribute name that reads back: it starts with neither white space
/// nor `>`, and no `"` in it follows a `=`.
pub open spec fn key_fits(k: Seq<char>) -> bool {
    &&& k.len() > 0
    &&& !is_space(k[0])
    &&& k[0] != '>'
    &&& forall|j: int| 1 <= j < k.len() ==> !(#[trigger] k[j] == '"' && k[j - 1] == '=')
}

/// An attribute value that reads back: not empty and without `"`.
pub open spec fn value_fits(v: Seq<char>) -> bool {
    &&& v.len() > 0
    &&& forall|j: int| 0 <= j < v.len() ==> #[trigger] v[j] != '"'
}

/// Attributes that read back: unique names, and each name and value fits.
pub open spec fn attrs_fit(a: Attrs) -> bool {
    &&& keys_unique(a)
    &&& forall|i: int| 0 <= i < a.len() ==> key_fits(#[trigger] a[i].0) && value_fits(a[i].1)
}

/// Text that reads back: not empty, without `<`, and with no white space at
/// either end.
pub open spec fn text_fits(t: Seq<char>) -> bool {
    &&& t.len() > 0
    &&& !is_space(t[0])
    &&& !is_space(t.last())
    &&& forall|j: int| 0 <= j < t.len() ==> #[trigger] t[j] != '<'
}

/// No two text nodes stand next to each other in `ts`.
pub open spec fn texts_apart(ts: Seq<Tree>) -> bool {
    forall|i: int|
        0 <= i < ts.len() - 1 ==> !(#[trigger] ts[i].name.len() == 0 && ts[i + 1].name.len() == 0)
}

/// A tree whose markup reads back as the same tree: a text node whose text
/// fits, or an element whose name and attributes fit, without text, whose
/// children fit and have no two text nodes side by side.
pub open spec fn fits(t: Tree) -> bool
    decreases t,
{
    if t.name.len() == 0 {
        &&& t.attributes.len() == 0
        &&& t.children.len() == 0
        &&& text_fits(t.text)
    } else {
        &&& name_fits(t.name)
        &&& t.text.len() == 0
        &&& attrs_fit(t.attributes)
        &&& texts_apart(t.children)
        &&& forall|i: int| 0 <= i < t.children.len() ==> fits(#[trigger] t.children[i])
    }
}

/// A document whose markup reads back: elements at the top, each fitting.
pub open spec fn doc_fits(doc: Seq<Tree>) -> bool {
    forall|i: int| 0 <= i < doc.len() ==> fits(#[trigger] doc[i]) && doc[i].name.len() > 0
}

/// One more character is one more step.
proof fn lemma_next(input: Seq<char>, k: int)
    requires
        0 <= k,
    ensures
        state(input, k + 1) == step(state(input, k), input, k),
{
    assert(((k + 1) as nat - 1) as nat == k as nat);
}

/// Two pieces that stand together stand one after the other.
proof fn lemma_split(input: Seq<char>, q: int, a: Seq<char>, b: Seq<char>)
    requires
        lies_at(input, q, a + b),
    ensures
        lies_at(input, q, a),
        lies_at(input, q + a.len(), b),
{
    assert forall|j: int| 0 <= j < a.len() implies input[q + j] == #[trigger] a[j] by {
        assert((a + b)[j] == a[j]);
    }
    assert forall|j: int| 0 <= j < b.len() implies input[q + a.len() + j] == #[trigger] b[j] by {
        assert((a + b)[a.len() + j] == b[j]);
    }
}

/// A one-character piece is that character.
proof fn lemma_char_at(input: Seq<char>, q: int, c: char)
    requires
        lies_at(input, q, seq![c]),
    ensures
        input[q] == c,
{
    assert(seq![c][0] == c);
}

/// Trailing white space is trimmed away.
proof fn lemma_trim_spaces(x: Seq<char>, w: Seq<char>)
    requires
        forall|j: int| 0 <= j < w.len() ==> is_space(#[trigger] w[j]),
    ensures
        trim_end(x + w) == trim_end(x),
    decreases w.len(),
{
    if w.len() == 0 {
        assert(x + w =~= x);
    } else {
        assert((x + w).drop_last() =~= x + w.drop_last());
        lemma_trim_spaces(x, w.drop_last());
    }
}

/// Text without white space at its ends is its own trimming.
proof fn lemma_trim_fitting(t: Seq<char>)
    requires
        t.len() > 0,
        !is_space(t[0]),
        !is_space(t.last()),
    ensures
        trim(t) == t,
{
    assert(trim_end(t) == t);
    assert(trim_start(t) == t);
}

/// White space in text mode with no text pending changes nothing.
proof fn lemma_skip_spaces(input: Seq<char>, q: int, x: Seq<char>)
    requires
        lies_at(input, q, x),
        state(input, q).failed is None,
        state(input, q).mode == Mode::Text,
        state(input, q).text.len() == 0,
        forall|j: int| 0 <= j < x.len() ==> is_space(#[trigger] x[j]),
    ensures
        state(input, q + x.len()) == state(input, q),
    decreases x.len(),
{
    if x.len() > 0 {
        let y = x.drop_last();
        lemma_skip_spaces(input, q, y);
        lemma_next(input, q + y.len());
        assert(input[q + y.len()] == x[y.len() as int]);
    }
}

/// Characters other than `<` in text mode extend pending text, once it has
/// started.
proof fn lemma_text_run(input: Seq<char>, q: int, x: Seq<char>)
    requires
        lies_at(input, q, x),
        state(input, q).failed is None,
        state(input, q).mode == Mode::Text,
        state(input, q).text.len() > 0 || x.len() == 0 || !is_space(x[0]),
        forall|j: int| 0 <= j < x.len() ==> #[trigger] x[j] != '<',
    ensures
        state(input, q + x.len()) == (Scan { text: state(input, q).text + x, ..state(input, q) }),
    decreases x.len(),
{
    let s = state(input, q);
    if x.len() > 0 {
        let y = x.drop_last();
        if y.len() > 0 {
            assert(y[0] == x[0]);
        }
        lemma_text_run(input, q, y);
        lemma_next(input, q + y.len());
        assert(input[q + y.len()] == x[y.len() as int]);
        assert(s.text + x =~= (s.text + y).push(x.last()));
    } else {
        assert(s.text + x =~= s.text);
    }
}

/// Name characters in a start tag extend the name.
proof fn lemma_start_name(input: Seq<char>, q: int, x: Seq<char>)
    requires
        lies_at(input, q, x),
        state(input, q).failed is None,
        state(input, q).mode == Mode::TagStart,
        forall|j: int| 0 <= j < x.len() ==> #[trigger] x[j] != '/' && x[j] != '>' && !is_space(x[j]),
    ensures
        state(input, q + x.len()) == (Scan { name: state(input, q).name + x, ..state(input, q) }),
    decreases x.len(),
{
    let s = state(input, q);
    if x.len() > 0 {
        let y = x.drop_last();
        lemma_start_name(input, q, y);
        lemma_next(input, q + y.len());
        assert(input[q + y.len()] == x[y.len() as int]);
        assert(s.name + x =~= (s.name + y).push(x.last()));
    } else {
        assert(s.name + x =~= s.name);
    }
}

/// Characters other than `>` in a closing tag extend the name.
proof fn lemma_end_name(input: Seq<char>, q: int, x: Seq<char>)
    requires
        lies_at(input, q, x),
        state(input, q).failed is None,
        state(input, q).mode == Mode::TagEnd,
        forall|j: int| 0 <= j < x.len() ==> #[trigger] x[j] != '>',
    ensures
        state(input, q + x.len()) == (Scan { name: state(input, q).name + x, ..state(input, q) }),
    decreases x.len(),
{
    let s = state(input, q);
    if x.len() > 0 {
        let y = x.drop_last();
        lemma_end_name(input, q, y);
        lemma_next(input, q + y.len());
        assert(input[q + y.len()] == x[y.len() as int]);
        assert(s.name + x =~= (s.name + y).push(x.last()));
    } else {
        assert(s.name + x =~= s.name);
    }
}

/// An attribute name runs on until a `"` that follows a `=`.
proof fn lemma_key_run(input: Seq<char>, q: int, x: Seq<char>)
    requires
        lies_at(input, q, x),
        state(input, q).failed is None,
        state(input, q).mode == Mode::AttributeName,
        forall|j: int|
            0 <= j < x.len() ==> !(#[trigger] x[j] == '"' && q + j > 0 && input[q + j - 1] == '='),
    ensures
        state(input, q + x.len()) == (Scan {
            attr_name: state(input, q).attr_name + x,
            ..state(input, q)
        }),
    decreases x.len(),
{
    let s = state(input, q);
    if x.len() > 0 {
        let y = x.drop_last();
        lemma_key_run(input, q, y);
        lemma_next(input, q + y.len());
        assert(input[q + y.len()] == x[y.len() as int]);
        assert(s.attr_name + x =~= (s.attr_name + y).push(x.last()));
    } else {
        assert(s.attr_name + x =~= s.attr_name);
    }
}

/// An attribute value runs on until a `"`.
proof fn lemma_value_run(input: Seq<char>, q: int, x: Seq<char>)
    requires
        lies_at(input, q, x),
        state(input, q).failed is None,
        state(input, q).mode == Mode::AttributeValue,
        forall|j: int| 0 <= j < x.len() ==> #[trigger] x[j] != '"',
    ensures
        state(input, q + x.len()) == (Scan {
            attr_value: state(input, q).attr_value + x,
            ..state(input, q)
        }),
    decreases x.len(),
{
    let s = state(input, q);
    if x.len() > 0 {
        let y = x.drop_last();
        lemma_value_run(input, q, y);
        lemma_next(input, q + y.len());
        assert(input[q + y.len()] == x[y.len() as int]);
        assert(s.attr_value + x =~= (s.attr_value + y).push(x.last()));
    } else {
        assert(s.attr_value + x =~= s.attr_value);
    }
}

/// One attribute, ` k="v"`, read in a start tag.
proof fn lemma_attr(input: Seq<char>, q: int, k: Seq<char>, v: Seq<char>)
    requires
        lies_at(input, q, seq![' '] + k + seq!['=', '"'] + v + seq!['"']),
        state(input, q).failed is None,
        state(input, q).mode == Mode::TagStart,
        state(input, q).attr_name.len() == 0,
        state(input, q).attr_value.len() == 0,
        key_fits(k),
        value_fits(v),
    ensures
        state(input, q + k.len() + v.len() + 4) == (Scan {
            attrs: attr_insert(state(input, q).attrs, k, v),
            ..state(input, q)
        }),
{
    let s = state(input, q);
    let sp = seq![' '];
    let eq = seq!['=', '"'];
    let qt = seq!['"'];
    lemma_split(input, q, sp + k + eq + v, qt);
    lemma_split(input, q, sp + k + eq, v);
    lemma_split(input, q, sp + k, eq);
    lemma_split(input, q, sp, k);
    lemma_char_at(input, q, ' ');
    let pe = q + 1 + k.len();
    assert(input[pe] == '=' && input[pe + 1] == '"') by {
        assert(eq[0] == '=' && eq[1] == '"');
    }
    let pq = pe + 2 + v.len();
    lemma_char_at(input, pq, '"');
    // The space opens an attribute: the next character is the first of `k`.
    lemma_next(input, q);
    assert(input[q + 1] == k[0]);
    let s1 = Scan { mode: Mode::AttributeName, ..s };
    assert(state(input, q + 1) == s1);
    // The name and its `=`.
    let x = k.push('=');
    assert(lies_at(input, q + 1, x)) by {
        assert forall|j: int| 0 <= j < x.len() implies input[q + 1 + j] == #[trigger] x[j] by {
            if j < k.len() {
                assert(x[j] == k[j]);
            }
        }
    }
    assert forall|j: int| 0 <= j < x.len() implies !(#[trigger] x[j] == '"' && q + 1 + j > 0
        && input[q + 1 + j - 1] == '=') by {
        if 1 <= j < k.len() {
            assert(x[j] == k[j] && input[q + j] == k[j - 1]);
        } else if j == 0 {
            assert(input[q] == ' ');
        }
    }
    lemma_key_run(input, q + 1, x);
    let s2 = Scan { attr_name: x, ..s1 };
    assert(s1.attr_name + x =~= x);
    assert(state(input, pe + 1) == s2);
    // The `"` after `=` ends the name.
    lemma_next(input, pe + 1);
    assert(x.drop_last() =~= k);
    let s3 = Scan { mode: Mode::AttributeValue, attr_name: k, ..s1 };
    assert(state(input, pe + 2) == s3);
    lemma_value_run(input, pe + 2, v);
    assert(s3.attr_value + v =~= v);
    let s4 = Scan { attr_value: v, ..s3 };
    assert(state(input, pq) == s4);
    lemma_next(input, pq);
    assert(state(input, pq + 1) == (Scan { attrs: attr_insert(s.attrs, k, v), ..s }));
}

/// The attribute list of a start tag, read in order.
proof fn lemma_attrs(input: Seq<char>, q: int, a: Attrs)
    requires
        lies_at(input, q, render_attrs(a)),
        state(input, q).failed is None,
        state(input, q).mode == Mode::TagStart,
        state(input, q).attr_name.len() == 0,
        state(input, q).attr_value.len() == 0,
        state(input, q).attrs.len() == 0,
        forall|i: int| 0 <= i < a.len() ==> key_fits(#[trigger] a[i].0) && value_fits(a[i].1),
    ensures
        state(input, q + render_attrs(a).len()) == (Scan {
            attrs: attrs_from(a),
            ..state(input, q)
        }),
    decreases a.len(),
{
    let s = state(input, q);
    if a.len() == 0 {
        assert(s.attrs =~= attrs_from(a));
    } else {
        let b = a.drop_last();
        let (k, v) = a.last();
        let piece = seq![' '] + k + seq!['=', '"'] + v + seq!['"'];
        assert(render_attrs(a) =~= render_attrs(b) + piece);
        lemma_split(input, q, render_attrs(b), piece);
        assert forall|i: int| 0 <= i < b.len() implies key_fits(#[trigger] b[i].0) && value_fits(
            b[i].1,
        ) by {
            assert(b[i] == a[i]);
        }
        lemma_attrs(input, q, b);
        assert(key_fits(a[a.len() - 1].0) && value_fits(a[a.len() - 1].1));
        lemma_attr(input, q + render_attrs(b).len(), k, v);
    }
}

/// With unique names, binding the pairs in order gives them back.
proof fn lemma_attrs_from_unique(a: Attrs)
    requires
        keys_unique(a),
    ensures
        attrs_from(a) == a,
    decreases a.len(),
{
    if a.len() > 0 {
        let b = a.drop_last();
        assert(keys_unique(b));
        lemma_attrs_from_unique(b);
        lemma_attr_insert_at(b, a.last().0, a.last().1, b.len() as int);
        assert(b.push(a.last()) =~= a);
    }
}

/// Attaching to an open element appends to its children.
proof fn lemma_attach_all_top(s: Scan, ts: Seq<Tree>)
    requires
        s.open.len() > 0,
    ensures
        attach_all(s, ts) == (Scan {
            open: s.open.update(
                s.open.len() - 1,
                (s.open.last().0, Tree { children: s.open.last().1.children + ts, ..s.open.last().1 }),
            ),
            ..s
        }),
    decreases ts.len(),
{
    let top = s.open.last();
    if ts.len() == 0 {
        assert(top.1.children + ts =~= top.1.children);
        assert(s.open.update(s.open.len() - 1, (top.0, Tree { children: top.1.children + ts, ..top.1 }))
            =~= s.open);
    } else {
        lemma_attach_all_top(s, ts.drop_last());
        assert((top.1.children + ts.drop_last()).push(ts.last()) =~= top.1.children + ts);
        let r = attach_all(s, ts);
        assert(r.open =~= s.open.update(
            s.open.len() - 1,
            (top.0, Tree { children: top.1.children + ts, ..top.1 }),
        ));
    }
}

/// With no element open, attached trees become top-level nodes.
proof fn lemma_attach_all_done(s: Scan, ts: Seq<Tree>)
    requires
        s.open.len() == 0,
    ensures
        attach_all(s, ts) == (Scan { done: s.done + ts, ..s }),
    decreases ts.len(),
{
    if ts.len() == 0 {
        assert(s.done + ts =~= s.done);
    } else {
        lemma_attach_all_done(s, ts.drop_last());
        assert((s.done + ts.drop_last()).push(ts.last()) =~= s.done + ts);
    }
}

/// Indentation before a tag changes nothing that a `<` would not undo.
proof fn lemma_pad(input: Seq<char>, q: int, w: Seq<char>)
    requires
        lies_at(input, q, w),
        ready(state(input, q)),
        forall|j: int| 0 <= j < w.len() ==> is_space(#[trigger] w[j]),
    ensures
        ready(state(input, q + w.len())),
        flush(state(input, q + w.len())) == flush(state(input, q)),
        state(input, q + w.len()).open == state(input, q).open,
        state(input, q).text.len() == 0 ==> state(input, q + w.len()) == state(input, q),
{
    let s = state(input, q);
    if s.text.len() == 0 {
        lemma_skip_spaces(input, q, w);
    } else {
        assert forall|j: int| 0 <= j < w.len() implies #[trigger] w[j] != '<' by {
            assert(is_space(w[j]));
        }
        lemma_text_run(input, q, w);
        lemma_trim_spaces(s.text, w);
    }
}

/// The opening line of an element pushes it, childless, on the stack of open
/// elements.
proof fn lemma_open_tag(input: Seq<char>, q: int, t: Tree, depth: nat, pretty: bool)
    requires
        lies_at(
            input,
            q,
            pad(depth, pretty) + seq!['<'] + t.name + render_attrs(t.attributes) + seq!['>']
                + newline(pretty),
        ),
        ready(state(input, q)),
        name_fits(t.name),
        attrs_fit(t.attributes),
    ensures
        state(
            input,
            q + pad(depth, pretty).len() + t.name.len() + render_attrs(t.attributes).len() + 2
                + newline(pretty).len(),
        ) == (Scan {
            open: flush(state(input, q)).open.push(
                (
                    (q + pad(depth, pretty).len() + 1 + t.name.len() + render_attrs(
                        t.attributes,
                    ).len()) as nat,
                    element(t.name, t.attributes, Seq::empty()),
                ),
            ),
            ..flush(state(input, q))
        }),
{
    let s0 = state(input, q);
    let w = pad(depth, pretty);
    let nl = newline(pretty);
    let ra = render_attrs(t.attributes);
    lemma_split(input, q, w + seq!['<'] + t.name + ra + seq!['>'], nl);
    lemma_split(input, q, w + seq!['<'] + t.name + ra, seq!['>']);
    lemma_split(input, q, w + seq!['<'] + t.name, ra);
    lemma_split(input, q, w + seq!['<'], t.name);
    lemma_split(input, q, w, seq!['<']);
    lemma_pad(input, q, w);
    let q1 = q + w.len();
    lemma_char_at(input, q1, '<');
    lemma_next(input, q1);
    let s2 = Scan { mode: Mode::TagStart, ..flush(state(input, q1)) };
    assert(state(input, q1 + 1) == s2);
    lemma_start_name(input, q1 + 1, t.name);
    assert(s2.name + t.name =~= t.name);
    let q3 = q1 + 1 + t.name.len();
    lemma_attrs(input, q3, t.attributes);
    lemma_attrs_from_unique(t.attributes);
    let p = q3 + ra.len();
    lemma_char_at(input, p, '>');
    lemma_next(input, p);
    let s5 = Scan {
        open: flush(s0).open.push((p as nat, element(t.name, t.attributes, Seq::empty()))),
        ..flush(s0)
    };
    assert(state(input, p + 1) == s5);
    lemma_skip_spaces(input, p + 1, nl);
}

/// The closing line of an element pops it and attaches it to its parent.
proof fn lemma_close_tag(input: Seq<char>, q: int, name: Seq<char>, depth: nat, pretty: bool)
    requires
        lies_at(
            input,
            q,
            pad(depth, pretty) + seq!['<', '/'] + name + seq!['>'] + newline(pretty),
        ),
        ready(state(input, q)),
        flush(state(input, q)).open.len() > 0,
        flush(state(input, q)).open.last().1.name == name,
        forall|j: int| 0 <= j < name.len() ==> #[trigger] name[j] != '>',
    ensures
        state(input, q + pad(depth, pretty).len() + name.len() + 3 + newline(pretty).len())
            == attach(
            Scan { open: flush(state(input, q)).open.drop_last(), ..flush(state(input, q)) },
            flush(state(input, q)).open.last().1,
        ),
{
    let s0 = state(input, q);
    let w = pad(depth, pretty);
    let nl = newline(pretty);
    let lt = seq!['<', '/'];
    lemma_split(input, q, w + lt + name + seq!['>'], nl);
    lemma_split(input, q, w + lt + name, seq!['>']);
    lemma_split(input, q, w + lt, name);
    lemma_split(input, q, w, lt);
    lemma_pad(input, q, w);
    let q1 = q + w.len();
    assert(input[q1] == '<' && input[q1 + 1] == '/') by {
        assert(lt[0] == '<' && lt[1] == '/');
    }
    lemma_next(input, q1);
    assert(state(input, q1 + 1) == (Scan { mode: Mode::TagStart, ..flush(s0) }));
    lemma_next(input, q1 + 1);
    let s3 = Scan { mode: Mode::TagEnd, ..flush(s0) };
    assert(state(input, q1 + 2) == s3);
    lemma_end_name(input, q1 + 2, name);
    assert(s3.name + name =~= name);
    let p = q1 + 2 + name.len();
    lemma_char_at(input, p, '>');
    lemma_next(input, p);
    let r = attach(Scan { open: flush(s0).open.drop_last(), ..flush(s0) }, flush(s0).open.last().1);
    assert(state(input, p + 1) == r);
    lemma_skip_spaces(input, p + 1, nl);
}

/// The line of a text node leaves its text pending, to be attached at the
/// next `<`.
proof fn lemma_text_leaf(input: Seq<char>, q: int, t: Tree, depth: nat, pretty: bool)
    requires
        fits(t),
        t.name.len() == 0,
        lies_at(input, q, markup(t, depth, pretty)),
        ready(state(input, q)),
        state(input, q).text.len() == 0,
        state(input, q).open.len() > 0,
    ensures
        ready(state(input, q + markup(t, depth, pretty).len())),
        flush(state(input, q + markup(t, depth, pretty).len())) == attach(
            flush(state(input, q)),
            t,
        ),
        state(input, q + markup(t, depth, pretty).len()).open.len() == state(input, q).open.len(),
{
    let s0 = state(input, q);
    let w = pad(depth, pretty);
    let nl = newline(pretty);
    lemma_split(input, q, w + t.text, nl);
    lemma_split(input, q, w, t.text);
    lemma_skip_spaces(input, q, w);
    let x = t.text + nl;
    assert(lies_at(input, q + w.len(), x)) by {
        assert forall|j: int| 0 <= j < x.len() implies input[q + w.len() + j] == #[trigger] x[j] by {
            if j < t.text.len() {
                assert(x[j] == t.text[j]);
            } else {
                assert(x[j] == nl[j - t.text.len()]);
            }
        }
    }
    assert forall|j: int| 0 <= j < x.len() implies #[trigger] x[j] != '<' by {
        if j < t.text.len() {
            assert(x[j] == t.text[j]);
        } else {
            assert(x[j] == nl[j - t.text.len()]);
        }
    }
    assert(x[0] == t.text[0]);
    lemma_text_run(input, q + w.len(), x);
    lemma_trim_fitting(t.text);
    assert(markup(t, depth, pretty) =~= w + x);
    lemma_trim_spaces(t.text, nl);
    assert(s0.text + x =~= x);
    assert(t.attributes.len() == 0 && t.children.len() == 0);
    assert(t.name =~= Seq::<char>::empty());
    assert(t.attributes =~= Attrs::empty());
    assert(t.children =~= Seq::<Tree>::empty());
    assert(t =~= text_node(t.text));
}

/// The markup of an element, read from a state between nodes, attaches the
/// element with all its children.
proof fn lemma_element(input: Seq<char>, q: int, t: Tree, depth: nat, pretty: bool)
    requires
        fits(t),
        t.name.len() > 0,
        lies_at(input, q, markup(t, depth, pretty)),
        ready(state(input, q)),
    ensures
        ready(state(input, q + markup(t, depth, pretty).len())),
        flush(state(input, q + markup(t, depth, pretty).len())) == attach(
            flush(state(input, q)),
            t,
        ),
        state(input, q + markup(t, depth, pretty).len()).text.len() == 0,
        state(input, q + markup(t, depth, pretty).len()).open.len() == state(input, q).open.len(),
    decreases t, 1nat,
{
    let s0 = state(input, q);
    let w = pad(depth, pretty);
    let nl = newline(pretty);
    let ra = render_attrs(t.attributes);
    let open = w + seq!['<'] + t.name + ra + seq!['>'] + nl;
    let inner = markup_all(t.children, depth + 1, pretty);
    let close = w + seq!['<', '/'] + t.name + seq!['>'] + nl;
    assert(markup(t, depth, pretty) =~= open + inner + close);
    lemma_split(input, q, open + inner, close);
    lemma_split(input, q, open, inner);
    lemma_open_tag(input, q, t, depth, pretty);
    let q1 = q + open.len();
    let p = (q + w.len() + 1 + t.name.len() + ra.len()) as nat;
    let s1 = state(input, q1);
    let f0 = flush(s0);
    assert(s1 == (Scan {
        open: f0.open.push((p, element(t.name, t.attributes, Seq::empty()))),
        ..f0
    }));
    assert(flush(s1) == s1);
    assert forall|i: int| 0 <= i < t.children.len() implies fits(#[trigger] t.children[i]) by {}
    lemma_nodes(input, q1, t.children, depth + 1, pretty);
    let q2 = q1 + inner.len();
    let s2 = state(input, q2);
    lemma_attach_all_top(s1, t.children);
    assert(Seq::<Tree>::empty() + t.children =~= t.children);
    let full = element(t.name, t.attributes, t.children);
    assert(flush(s2).open =~= f0.open.push((p, full)));
    assert forall|j: int| 0 <= j < t.name.len() implies #[trigger] t.name[j] != '>' by {
        assert(t.name[j] != '/' && t.name[j] != '>');
    }
    lemma_close_tag(input, q2, t.name, depth, pretty);
    assert(flush(s2).open.drop_last() =~= f0.open);
    assert(t == full);
    assert(Scan { open: f0.open, ..flush(s2) } == f0);
}

/// The markup of one tree, read from a state between nodes, attaches the
/// tree (a text node once the next `<` comes).
proof fn lemma_node(input: Seq<char>, q: int, t: Tree, depth: nat, pretty: bool)
    requires
        fits(t),
        lies_at(input, q, markup(t, depth, pretty)),
        ready(state(input, q)),
        t.name.len() == 0 ==> state(input, q).text.len() == 0 && state(input, q).open.len() > 0,
    ensures
        ready(state(input, q + markup(t, depth, pretty).len())),
        flush(state(input, q + markup(t, depth, pretty).len())) == attach(
            flush(state(input, q)),
            t,
        ),
        t.name.len() > 0 ==> state(input, q + markup(t, depth, pretty).len()).text.len() == 0,
        state(input, q + markup(t, depth, pretty).len()).open.len() == state(input, q).open.len(),
    decreases t, 2nat,
{
    if t.name.len() == 0 {
        lemma_text_leaf(input, q, t, depth, pretty);
    } else {
        lemma_element(input, q, t, depth, pretty);
    }
}

/// The markup of a sequence of trees attaches them in order.
proof fn lemma_nodes(input: Seq<char>, q: int, ts: Seq<Tree>, depth: nat, pretty: bool)
    requires
        forall|i: int| 0 <= i < ts.len() ==> fits(#[trigger] ts[i]),
        texts_apart(ts),
        lies_at(input, q, markup_all(ts, depth, pretty)),
        ready(state(input, q)),
        ts.len() > 0 && ts[0].name.len() == 0 ==> state(input, q).text.len() == 0,
        state(input, q).open.len() > 0 || forall|i: int|
            0 <= i < ts.len() ==> (#[trigger] ts[i]).name.len() > 0,
    ensures
        ready(state(input, q + markup_all(ts, depth, pretty).len())),
        flush(state(input, q + markup_all(ts, depth, pretty).len())) == attach_all(
            flush(state(input, q)),
            ts,
        ),
        ts.len() > 0 && ts.last().name.len() > 0 ==> state(
            input,
            q + markup_all(ts, depth, pretty).len(),
        ).text.len() == 0,
        ts.len() == 0 ==> state(input, q + markup_all(ts, depth, pretty).len()) == state(input, q),
        state(input, q + markup_all(ts, depth, pretty).len()).open.len() == state(
            input,
            q,
        ).open.len(),
    decreases ts, 0nat,
{
    if ts.len() > 0 {
        let b = ts.drop_last();
        let m = markup_all(b, depth, pretty);
        lemma_split(input, q, m, markup(ts.last(), depth, pretty));
        assert forall|i: int| 0 <= i < b.len() implies fits(#[trigger] b[i]) by {
            assert(b[i] == ts[i]);
        }
        assert(texts_apart(b)) by {
            assert forall|i: int| 0 <= i < b.len() - 1 implies !(#[trigger] b[i].name.len() == 0
                && b[i + 1].name.len() == 0) by {
                assert(b[i] == ts[i] && b[i + 1] == ts[i + 1]);
            }
        }
        if state(input, q).open.len() == 0 {
            assert forall|i: int| 0 <= i < b.len() implies (#[trigger] b[i]).name.len() > 0 by {
                assert(b[i] == ts[i]);
            }
        }
        if b.len() > 0 {
            assert(b[0] == ts[0]);
        }
        lemma_nodes(input, q, b, depth, pretty);
        let q1 = q + m.len();
        let last = ts.last();
        assert(fits(ts[ts.len() - 1]));
        if last.name.len() == 0 {
            if b.len() > 0 {
                assert(!(ts[b.len() - 1].name.len() == 0 && ts[b.len() as int].name.len() == 0));
                assert(b.last() == ts[b.len() - 1]);
            }
            if state(input, q).open.len() == 0 {
                assert(ts[ts.len() - 1].name.len() > 0);
            }
        }
        lemma_node(input, q1, last, depth, pretty);
    }
}

/// The markup of a document whose top-level nodes are fitting elements
/// reads back as that document.
proof fn lemma_markup_reads_back(doc: Seq<Tree>, pretty: bool)
    requires
        doc_fits(doc),
    ensures
        parsed(markup_all(doc, 0, pretty)) == Ok::<Seq<Tree>, nat>(doc),
{
    let input = markup_all(doc, 0, pretty);
    assert(state(input, 0) == start());
    assert(texts_apart(doc)) by {
        assert forall|i: int| 0 <= i < doc.len() - 1 implies !(#[trigger] doc[i].name.len() == 0
            && doc[i + 1].name.len() == 0) by {
            assert(doc_fits(doc));
        }
    }
    assert(lies_at(input, 0, input));
    lemma_nodes(input, 0, doc, 0, pretty);
    let e = state(input, input.len() as int);
    lemma_attach_all_done(start(), doc);
    assert(Seq::<Tree>::empty() + doc =~= doc);
    if doc.len() > 0 {
        assert(doc[doc.len() - 1].name.len() > 0);
    }
    assert(e.text.len() == 0);
    assert(flush(e) == e);
}

/// An element made of tags alone: a name that reads back, no attributes, no
/// text, and children of the same kind.
pub open spec fn tag_pairs(t: Tree) -> bool
    decreases t,
{
    &&& name_fits(t.name)
    &&& t.text.len() == 0
    &&& t.attributes.len() == 0
    &&& forall|i: int| 0 <= i < t.children.len() ==> tag_pairs(#[trigger] t.children[i])
}

/// Elements made of tags alone fit.
proof fn lemma_tag_pairs_fit(t: Tree)
    requires
        tag_pairs(t),
    ensures
        fits(t),
    decreases t,
{
    assert forall|i: int| 0 <= i < t.children.len() implies fits(#[trigger] t.children[i]) by {
        lemma_tag_pairs_fit(t.children[i]);
    }
    assert forall|i: int| 0 <= i < t.children.len() - 1 implies !(
    #[trigger] t.children[i].name.len() == 0 && t.children[i + 1].name.len() == 0) by {
        assert(tag_pairs(t.children[i]));
    }
}

/// Markup made only of matched `<name>...</name>` pairs, without attributes,
/// reads as the forest of elements that it spells; and the rendering of that
/// forest reads back as the same forest, so rendering keeps every name and
/// the nesting.
pub proof fn lemma_tag_pairs_read_and_render(doc: Seq<Tree>)
    requires
        forall|i: int| 0 <= i < doc.len() ==> tag_pairs(#[trigger] doc[i]),
    ensures
        parsed(markup_all(doc, 0, false)) == Ok::<Seq<Tree>, nat>(doc),
        parsed(render_all(doc, 0)) == Ok::<Seq<Tree>, nat>(doc),
{
    assert forall|i: int| 0 <= i < doc.len() implies fits(#[trigger] doc[i]) && doc[i].name.len()
        > 0 by {
        lemma_tag_pairs_fit(doc[i]);
    }
    lemma_markup_reads_back(doc, false);
    lemma_markup_reads_back(doc, true);
}

/// Rendering a document that was read, and reading the rendering, gives the
/// same document again: the same names, attributes, text and nesting. This
/// holds where every node fits (`doc_fits`). Some markup reads as a document
/// that does not: an element with an empty name (`<></>`), or an attribute
/// name that takes up a `"` after a `=` left over from an attribute with an
/// empty value.
pub proof fn lemma_round_trip(input: Seq<char>, doc: Seq<Tree>)
    requires
        parsed(input) == Ok::<Seq<Tree>, nat>(doc),
        doc_fits(doc),
    ensures
        parsed(render_all(doc, 0)) == parsed(input),
{
    lemma_markup_reads_back(doc, true);
}

/// Every attribute has a non-empty name and a non-empty value, and no two
/// share a name.
pub open spec fn attrs_sound(a: Attrs) -> bool {
    &&& keys_unique(a)
    &&& forall|i: int| 0 <= i < a.len() ==> (#[trigger] a[i]).0.len() > 0 && a[i].1.len() > 0
}

/// What every node that reading builds satisfies: a node with text is a
/// leaf without a name or attributes, and its text is non-empty and trimmed;
/// attributes are sound; and so on below.
pub open spec fn node_sound(t: Tree) -> bool
    decreases t,
{
    &&& t.text.len() > 0 ==> t.name.len() == 0 && t.attributes.len() == 0 && t.children.len() == 0
        && trim(t.text) == t.text
    &&& attrs_sound(t.attributes)
    &&& forall|i: int| 0 <= i < t.children.len() ==> node_sound(#[trigger] t.children[i])
}

/// What holds of the scanner's state while nothing has failed.
pub open spec fn scan_sound(s: Scan) -> bool {
    s.failed is None ==> {
        &&& forall|i: int|
            0 <= i < s.open.len() ==> node_sound(#[trigger] s.open[i].1) && s.open[i].1.text.len()
                == 0
        &&& forall|i: int| 0 <= i < s.done.len() ==> node_sound(#[trigger] s.done[i])
        &&& attrs_sound(s.attrs)
        &&& s.text.len() > 0 ==> !is_space(s.text[0])
    }
}

/// Each entry of `attr_insert(a, key, value)` is the new pair or one of `a`.
proof fn lemma_attr_insert_entries(a: Attrs, key: Seq<char>, value: Seq<char>)
    ensures
        forall|m: int|
            0 <= m < attr_insert(a, key, value).len() ==> #[trigger] attr_insert(a, key, value)[m]
                == (key, value) || exists|l: int|
                0 <= l < a.len() && a[l] == attr_insert(a, key, value)[m],
    decreases a.len(),
{
    if a.len() > 0 && a[0].0 != key {
        let r = attr_insert(a.drop_first(), key, value);
        lemma_attr_insert_entries(a.drop_first(), key, value);
        let s = seq![a[0]] + r;
        assert forall|m: int| 0 <= m < s.len() implies s[m] == (key, value) || exists|l: int|
            0 <= l < a.len() && a[l] == s[m] by {
            if m > 0 {
                assert(r[m - 1] == s[m]);
                if r[m - 1] != (key, value) {
                    let l = choose|l: int|
                        0 <= l < a.drop_first().len() && a.drop_first()[l] == r[m - 1];
                    assert(a[l + 1] == s[m]);
                }
            } else {
                assert(a[0] == s[0]);
            }
        }
    } else if a.len() > 0 {
        let s = a.update(0, (key, value));
        assert forall|m: int| 0 <= m < s.len() implies s[m] == (key, value) || exists|l: int|
            0 <= l < a.len() && a[l] == s[m] by {
            if m > 0 {
                assert(a[m] == s[m]);
            }
        }
    }
}

/// Binding a pair with a non-empty name and value keeps attributes sound.
proof fn lemma_attr_insert_sound(a: Attrs, key: Seq<char>, value: Seq<char>)
    requires
        attrs_sound(a),
        key.len() > 0,
        value.len() > 0,
    ensures
        attrs_sound(attr_insert(a, key, value)),
{
    crate::node::lemma_attr_insert_unique(a, key, value);
    lemma_attr_insert_entries(a, key, value);
    let r = attr_insert(a, key, value);
    assert forall|i: int| 0 <= i < r.len() implies (#[trigger] r[i]).0.len() > 0 && r[i].1.len()
        > 0 by {
        if r[i] != (key, value) {
            let l = choose|l: int| 0 <= l < a.len() && a[l] == r[i];
            assert(a[l].0.len() > 0);
        }
    }
}

/// Attaching a sound tree keeps the state sound.
proof fn lemma_attach_sound(s: Scan, t: Tree)
    requires
        s.failed is None,
        scan_sound(s),
        node_sound(t),
    ensures
        scan_sound(attach(s, t)),
{
    if s.open.len() > 0 {
        let n = s.open.len() - 1;
        let top = s.open[n];
        let nt = Tree { children: top.1.children.push(t), ..top.1 };
        assert(node_sound(top.1) && top.1.text.len() == 0);
        assert forall|i: int| 0 <= i < nt.children.len() implies node_sound(
            #[trigger] nt.children[i],
        ) by {
            if i < top.1.children.len() {
                assert(nt.children[i] == top.1.children[i]);
            }
        }
        assert(node_sound(nt));
        let r = attach(s, t);
        assert forall|i: int| 0 <= i < r.open.len() implies node_sound(#[trigger] r.open[i].1)
            && r.open[i].1.text.len() == 0 by {
            if i < n {
                assert(r.open[i] == s.open[i]);
            }
        }
    } else {
        let r = attach(s, t);
        assert forall|i: int| 0 <= i < r.done.len() implies node_sound(#[trigger] r.done[i]) by {
            if i < s.done.len() {
                assert(r.done[i] == s.done[i]);
            }
        }
    }
}

/// Trimming the end of text that starts with a non-space character leaves
/// fitting, non-empty text.
proof fn lemma_trim_end_start(x: Seq<char>)
    requires
        x.len() > 0,
        !is_space(x[0]),
    ensures
        trim_end(x).len() > 0,
        trim_end(x)[0] == x[0],
        !is_space(trim_end(x).last()),
    decreases x.len(),
{
    if is_space(x.last()) {
        assert(x.len() > 1);
        let y = x.drop_last();
        assert(y[0] == x[0]);
        lemma_trim_end_start(y);
    }
}

/// One step keeps the state sound.
proof fn lemma_step_sound(s: Scan, input: Seq<char>, i: int)
    requires
        0 <= i < input.len(),
        scan_sound(s),
    ensures
        scan_sound(step(s, input, i)),
{
    let c = input[i];
    if s.failed is None {
        match s.mode {
            Mode::Text => {
                if c == '<' {
                    if s.text.len() > 0 && s.open.len() > 0 {
                        let x = trim_end(s.text);
                        lemma_trim_end_start(s.text);
                        lemma_trim_fitting(x);
                        assert(node_sound(text_node(x)));
                        lemma_attach_sound(s, text_node(x));
                    }
                } else if !is_space(c) || s.text.len() > 0 {
                    assert(s.text.push(c)[0] == if s.text.len() > 0 { s.text[0] } else { c });
                }
            },
            Mode::TagStart => {
                if c == '>' {
                    let t = element(s.name, s.attrs, Seq::empty());
                    assert(node_sound(t));
                    let r = step(s, input, i);
                    assert forall|k: int| 0 <= k < r.open.len() implies node_sound(
                        #[trigger] r.open[k].1,
                    ) && r.open[k].1.text.len() == 0 by {
                        if k < s.open.len() {
                            assert(r.open[k] == s.open[k]);
                        }
                    }
                }
            },
            Mode::AttributeName => {},
            Mode::AttributeValue => {
                if c == '"' && s.attr_name.len() > 0 && s.attr_value.len() > 0 {
                    lemma_attr_insert_sound(s.attrs, s.attr_name, s.attr_value);
                }
            },
            Mode::TagEnd => {
                if c == '>' && s.open.len() > 0 && s.open.last().1.name == s.name {
                    let s1 = Scan { mode: Mode::Text, open: s.open.drop_last(), name: Seq::empty(), ..s };
                    assert forall|k: int| 0 <= k < s1.open.len() implies node_sound(
                        #[trigger] s1.open[k].1,
                    ) && s1.open[k].1.text.len() == 0 by {
                        assert(s1.open[k] == s.open[k]);
                    }
                    assert(node_sound(s.open[s.open.len() - 1].1));
                    lemma_attach_sound(s1, s.open.last().1);
                }
            },
            Mode::SelfClosing => {
                if c == '>' {
                    let s1 = Scan { mode: Mode::Text, name: Seq::empty(), attrs: Seq::empty(), ..s };
                    let t = element(s.name, s.attrs, Seq::empty());
                    assert(node_sound(t));
                    lemma_attach_sound(s1, t);
                }
            },
        }
    }
}

/// Every state the scanner reaches is sound.
proof fn lemma_run_sound(input: Seq<char>, k: nat)
    requires
        k <= input.len(),
    ensures
        scan_sound(run(input, k)),
    decreases k,
{
    if k > 0 {
        lemma_run_sound(input, (k - 1) as nat);
        lemma_step_sound(run(input, (k - 1) as nat), input, k - 1);
    }
}

/// Every node of a document that was read is sound: text nodes are leaves
/// without a name or attributes, holding non-empty trimmed text; elements
/// hold no text; attribute names and values are non-empty and unique.
pub proof fn lemma_parsed_nodes_sound(input: Seq<char>, doc: Seq<Tree>)
    requires
        parsed(input) == Ok::<Seq<Tree>, nat>(doc),
    ensures
        forall|i: int| 0 <= i < doc.len() ==> node_sound(#[trigger] doc[i]),
{
    lemma_run_sound(input, input.len());
}

} // verus!
