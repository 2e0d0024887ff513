use vstd::prelude::*;

verus! {

/// The namespace of HTML elements.
pub const HTML_NAMESPACE: &'static str = "http://www.w3.org/1999/xhtml";

/// A namespace-qualified name of an element or an attribute.
#[derive(Debug, PartialEq, Eq)]
pub struct QualName {
    pub prefix: Option<String>,
    pub ns: String,
    pub local: String,
}

/// One attribute of an element; names need not be unique within an element.
#[derive(Debug, PartialEq, Eq)]
pub struct Attribute {
    pub name: QualName,
    pub value: String,
}

/// What a node of a document is.
#[allow(inconsistent_fields)]
#[derive(Debug, PartialEq, Eq)]
pub enum NodeData {
    Document,
    Doctype { name: String, public_id: String, system_id: String },
    Text { contents: String },
    Comment { contents: String },
    Element { name: QualName, attrs: Vec<Attribute> },
    ProcessingInstruction { target: String, contents: String },
}

/// A node of a document together with its children, in document order.
#[derive(Debug, PartialEq, Eq)]
pub struct Node {
    pub data: NodeData,
    pub children: Vec<Node>,
}

pub open spec fn is_html(name: QualName) -> bool {
    name.ns@ == HTML_NAMESPACE@
}

pub open spec fn is_image(name: QualName) -> bool {
    is_html(name) && name.local@ == "img"@
}

pub open spec fn is_source(a: Attribute) -> bool {
    a.name.local@ == "src"@
}

/// The values of the `src` attributes among `attrs`, in list order.
pub open spec fn sources(attrs: Seq<Attribute>) -> Seq<Seq<char>>
    decreases attrs.len(),
{
    if attrs.len() == 0 {
        Seq::empty()
    } else {
        let last = attrs.last();
        let rest = sources(attrs.drop_last());
        if is_source(last) {
            rest.push(last.value@)
        } else {
            rest
        }
    }
}

/// The image references of a subtree, in document order: the `src` values of
/// every HTML `img` element; the subtree of a foreign element is skipped.
pub open spec fn refs(n: Node) -> Seq<Seq<char>>
    decreases n,
{
    match n.data {
        NodeData::Element { name, attrs } => {
            if !is_html(name) {
                Seq::empty()
            } else if is_image(name) {
                sources(attrs@) + refs_of(n.children@)
            } else {
                refs_of(n.children@)
            }
        },
        _ => refs_of(n.children@),
    }
}

/// The image references of a sequence of sibling subtrees, in order.
pub open spec fn refs_of(s: Seq<Node>) -> Seq<Seq<char>>
    decreases s,
{
    if s.len() == 0 {
        Seq::empty()
    } else {
        refs_of(s.subrange(0, s.len() - 1)) + refs(s[s.len() - 1])
    }
}

/// The local names of the elements outside the HTML namespace whose subtrees
/// the walk skips, in document order; one inside another skipped subtree is
/// not listed.
pub open spec fn foreign(n: Node) -> Seq<Seq<char>>
    decreases n,
{
    match n.data {
        NodeData::Element { name, attrs } => {
            if !is_html(name) {
                seq![name.local@]
            } else {
                foreign_of(n.children@)
            }
        },
        _ => foreign_of(n.children@),
    }
}

pub open spec fn foreign_of(s: Seq<Node>) -> Seq<Seq<char>>
    decreases s,
{
    if s.len() == 0 {
        Seq::empty()
    } else {
        foreign_of(s.subrange(0, s.len() - 1)) + foreign(s[s.len() - 1])
    }
}

fn str_equals(a: &String, b: &str) -> (r: bool)
    ensures
        r == (a@ == b@),
{
    let s = String::from_str(b);
    *a == s
}

fn collect_sources(attrs: &Vec<Attribute>, out: &mut Vec<String>)
    ensures
        final(out)@.map_values(|s: String| s@) == old(out)@.map_values(|s: String| s@) + sources(attrs@),
{
    let ghost start = out@.map_values(|s: String| s@);
    let mut i: usize = 0;
    while i < attrs.len()
        invariant
            i <= attrs@.len(),
            out@.map_values(|s: String| s@) == start + sources(attrs@.subrange(0, i as int)),
        decreases attrs@.len() - i,
    {
        let ghost before = out@;
        assert(attrs@.subrange(0, i as int + 1).drop_last() == attrs@.subrange(0, i as int));
        assert(attrs@.subrange(0, i as int + 1).last() == attrs@[i as int]);
        if str_equals(&attrs[i].name.local, "src") {
            let v = attrs[i].value.clone();
            out.push(v);
            assert(out@.map_values(|s: String| s@) =~= before.map_values(|s: String| s@).push(v@));
        }
        i += 1;
    }
    assert(attrs@.subrange(0, attrs@.len() as int) == attrs@);
}


fn collect_refs(n: &Node, out: &mut Vec<String>)
    ensures
        final(out)@.map_values(|s: String| s@) == old(out)@.map_values(|s: String| s@) + refs(*n),
    decreases n,
{
    match &n.data {
        NodeData::Element { name, attrs } => {
            if !str_equals(&name.ns, HTML_NAMESPACE) {
                assert(old(out)@.map_values(|s: String| s@) + refs(*n) =~= old(out)@.map_values(|s: String| s@));
                return;
            }
            if str_equals(&name.local, "img") {
                collect_sources(attrs, out);
            }
        },
        _ => {},
    }
    let ghost own = out@.map_values(|s: String| s@);
    let ghost kids = n.children@;
    let mut i: usize = 0;
    while i < n.children.len()
        invariant
            i <= kids.len(),
            kids == n.children@,
            out@.map_values(|s: String| s@) == own + refs_of(kids.subrange(0, i as int)),
        decreases kids.len() - i,
    {
        assert(decreases_to!(n => n.children@[i as int]));
        collect_refs(&n.children[i], out);
        assert(kids.subrange(0, i as int + 1).subrange(0, i as int) == kids.subrange(0, i as int));
        assert(kids.subrange(0, i as int + 1)[i as int] == kids[i as int]);
        i += 1;
        assert(out@.map_values(|s: String| s@) =~= own + refs_of(kids.subrange(0, i as int)));
    }
    assert(kids.subrange(0, kids.len() as int) == kids);
    assert(out@.map_values(|s: String| s@) =~= old(out)@.map_values(|s: String| s@) + refs(*n));
}

fn collect_foreign(n: &Node, out: &mut Vec<String>)
    ensures
        final(out)@.map_values(|s: String| s@) == old(out)@.map_values(|s: String| s@) + foreign(*n),
    decreases n,
{
    match &n.data {
        NodeData::Element { name, attrs } => {
            if !str_equals(&name.ns, HTML_NAMESPACE) {
                let ghost before = out@;
                out.push(name.local.clone());
                assert(out@.map_values(|s: String| s@) =~= before.map_values(|s: String| s@) + foreign(*n));
                return;
            }
        },
        _ => {},
    }
    let ghost start = out@.map_values(|s: String| s@);
    let ghost kids = n.children@;
    let mut i: usize = 0;
    while i < n.children.len()
        invariant
            i <= kids.len(),
            kids == n.children@,
            out@.map_values(|s: String| s@) == start + foreign_of(kids.subrange(0, i as int)),
        decreases kids.len() - i,
    {
        assert(decreases_to!(n => n.children@[i as int]));
        collect_foreign(&n.children[i], out);
        assert(kids.subrange(0, i as int + 1).subrange(0, i as int) == kids.subrange(0, i as int));
        assert(kids.subrange(0, i as int + 1)[i as int] == kids[i as int]);
        i += 1;
        assert(out@.map_values(|s: String| s@) =~= start + foreign_of(kids.subrange(0, i as int)));
    }
    assert(kids.subrange(0, kids.len() as int) == kids);
    assert(out@.map_values(|s: String| s@) =~= old(out)@.map_values(|s: String| s@) + foreign(*n));
}

/// Lists the elements outside the HTML namespace whose subtrees the walk
/// skips, by local name, in document order.
pub fn foreign_elements(doc: &Node) -> (r: Vec<String>)
    ensures
        r@.map_values(|s: String| s@) == foreign(*doc),
{
    let mut out: Vec<String> = Vec::new();
    assert(out@.map_values(|s: String| s@) =~= Seq::<Seq<char>>::empty());
    collect_foreign(doc, &mut out);
    assert(out@.map_values(|s: String| s@) =~= foreign(*doc));
    out
}

/// Lists the image references of a document in document order: the value of
/// every `src` attribute of every HTML `img` element, skipping the subtrees of
/// elements outside the HTML namespace.
pub fn image_refs(doc: &Node) -> (r: Vec<String>)
    ensures
        r@.map_values(|s: String| s@) == refs(*doc),
{
    let mut out: Vec<String> = Vec::new();
    assert(out@.map_values(|s: String| s@) =~= Seq::<Seq<char>>::empty());
    collect_refs(doc, &mut out);
    assert(out@.map_values(|s: String| s@) =~= refs(*doc));
    out
}


/// The replacement that `table` gives for `key`: the value of its first entry
/// whose key is `key`.
pub open spec fn lookup(table: Seq<(String, String)>, key: Seq<char>) -> Option<Seq<char>>
    decreases table.len(),
{
    if table.len() == 0 {
        None
    } else if table[0].0@ == key {
        Some(table[0].1@)
    } else {
        lookup(table.drop_first(), key)
    }
}

/// `b` is `a` with its value replaced when it is a `src` attribute that `table` maps.
pub open spec fn attr_rewritten(a: Attribute, b: Attribute, table: Seq<(String, String)>) -> bool {
    &&& b.name == a.name
    &&& if is_source(a) && lookup(table, a.value@) is Some {
        b.value@ == lookup(table, a.value@)->0
    } else {
        b.value == a.value
    }
}

/// `b` is the node data `a` with the `src` attributes of an HTML `img` element rewritten.
pub open spec fn data_rewritten(a: NodeData, b: NodeData, table: Seq<(String, String)>) -> bool {
    match a {
        NodeData::Element { name, attrs } => match b {
            NodeData::Element { name: name2, attrs: attrs2 } => {
                &&& name2 == name
                &&& if is_image(name) {
                    &&& attrs2@.len() == attrs@.len()
                    &&& forall|j: int|
                        0 <= j < attrs@.len() ==> attr_rewritten(
                            #[trigger] attrs@[j],
                            attrs2@[j],
                            table,
                        )
                } else {
                    attrs2 == attrs
                }
            },
            _ => false,
        },
        _ => b == a,
    }
}

pub open spec fn is_foreign(d: NodeData) -> bool {
    match d {
        NodeData::Element { name, attrs } => !is_html(name),
        _ => false,
    }
}

/// `b` is the subtree `a` with the source of every HTML `img` element rewritten
/// by `table`; nothing is inserted, removed or reordered, and the subtree of a
/// foreign element is left as it is.
pub open spec fn rewritten(a: Node, b: Node, table: Seq<(String, String)>) -> bool
    decreases a,
{
    if is_foreign(a.data) {
        b == a
    } else {
        &&& data_rewritten(a.data, b.data, table)
        &&& b.children@.len() == a.children@.len()
        &&& forall|i: int|
            0 <= i < a.children@.len() ==> rewritten(
                #[trigger] a.children@[i],
                b.children@[i],
                table,
            )
    }
}

fn find_replacement(table: &Vec<(String, String)>, key: &String) -> (r: Option<usize>)
    ensures
        match r {
            Some(k) => k < table@.len() && lookup(table@, key@) == Some(table@[k as int].1@),
            None => lookup(table@, key@) is None,
        },
{
    let mut i: usize = 0;
    assert(table@.subrange(0, table@.len() as int) == table@);
    while i < table.len()
        invariant
            i <= table@.len(),
            lookup(table@, key@) == lookup(table@.subrange(i as int, table@.len() as int), key@),
        decreases table@.len() - i,
    {
        let ghost rest = table@.subrange(i as int, table@.len() as int);
        assert(rest.drop_first() == table@.subrange(i as int + 1, table@.len() as int));
        if table[i].0 == *key {
            return Some(i);
        }
        i += 1;
    }
    None
}

/// An entry appended to a table leaves every key it had mapped, and maps its own key.
pub proof fn lemma_lookup_push(table: Seq<(String, String)>, e: (String, String), x: Seq<char>)
    ensures
        (lookup(table, x) is Some || e.0@ == x) ==> lookup(table.push(e), x) is Some,
    decreases table.len(),
{
    if table.len() > 0 {
        assert(table.push(e).drop_first() == table.drop_first().push(e));
        lemma_lookup_push(table.drop_first(), e, x);
    } else {
        assert(table.push(e)[0] == e);
    }
}

fn rewrite_attrs(attrs: &mut Vec<Attribute>, table: &Vec<(String, String)>)
    ensures
        final(attrs)@.len() == old(attrs)@.len(),
        forall|j: int|
            0 <= j < old(attrs)@.len() ==> attr_rewritten(
                #[trigger] old(attrs)@[j],
                final(attrs)@[j],
                table@,
            ),
{
    let mut i: usize = 0;
    while i < attrs.len()
        invariant
            i <= attrs@.len(),
            attrs@.len() == old(attrs)@.len(),
            forall|j: int|
                0 <= j < i ==> attr_rewritten(#[trigger] old(attrs)@[j], attrs@[j], table@),
            forall|j: int| i <= j < attrs@.len() ==> #[trigger] attrs@[j] == old(attrs)@[j],
        decreases attrs@.len() - i,
    {
        if str_equals(&attrs[i].name.local, "src") {
            match find_replacement(table, &attrs[i].value) {
                Some(k) => {
                    attrs[i].value = table[k].1.clone();
                },
                None => {},
            }
        }
        i += 1;
    }
}

fn rewrite_node(n: &mut Node, table: &Vec<(String, String)>)
    ensures
        rewritten(*old(n), *final(n), table@),
    decreases *old(n),
{
    match &mut n.data {
        NodeData::Element { name, attrs } => {
            if !str_equals(&name.ns, HTML_NAMESPACE) {
                return;
            }
            if str_equals(&name.local, "img") {
                rewrite_attrs(attrs, table);
            }
        },
        _ => {},
    }
    let mut i: usize = 0;
    while i < n.children.len()
        invariant
            i <= n.children@.len(),
            n.children@.len() == old(n).children@.len(),
            data_rewritten(old(n).data, n.data, table@),
            !is_foreign(old(n).data),
            forall|j: int|
                0 <= j < i ==> rewritten(#[trigger] old(n).children@[j], n.children@[j], table@),
            forall|j: int| i <= j < n.children@.len() ==> #[trigger] n.children@[j] == old(n).children@[j],
        decreases n.children@.len() - i,
    {
        assert(n.children@[i as int] == old(n).children@[i as int]);
        assert(decreases_to!(*old(n) => old(n).children@[i as int]));
        rewrite_node(&mut n.children[i], table);
        i += 1;
    }
}

/// Replaces, in place, the value of every `src` attribute of every HTML `img`
/// element whose value is a key of `table` with the value that `table` gives
/// for it. Elements outside the HTML namespace are skipped with their subtrees.
pub fn rewrite(doc: &mut Node, table: &Vec<(String, String)>)
    ensures
        rewritten(*old(doc), *final(doc), table@),
{
    rewrite_node(doc, table);
}

pub open spec fn same_data(a: NodeData, b: NodeData) -> bool {
    match a {
        NodeData::Element { name, attrs } => match b {
            NodeData::Element { name: name2, attrs: attrs2 } => name2 == name && attrs2@ == attrs@,
            _ => false,
        },
        _ => b == a,
    }
}

/// `a` and `b` hold the same nodes, with the same data, in the same places.
pub open spec fn same_tree(a: Node, b: Node) -> bool
    decreases a,
{
    &&& same_data(a.data, b.data)
    &&& b.children@.len() == a.children@.len()
    &&& forall|i: int|
        0 <= i < a.children@.len() ==> same_tree(#[trigger] a.children@[i], b.children@[i])
}

proof fn lemma_same_tree_reflexive(a: Node)
    ensures
        same_tree(a, a),
    decreases a,
{
    assert forall|i: int| 0 <= i < a.children@.len() implies same_tree(
        #[trigger] a.children@[i],
        a.children@[i],
    ) by {
        assert(decreases_to!(a => a.children@[i]));
        lemma_same_tree_reflexive(a.children@[i]);
    }
}

proof fn lemma_sources_contains(attrs: Seq<Attribute>, j: int)
    requires
        0 <= j < attrs.len(),
        is_source(attrs[j]),
    ensures
        sources(attrs).contains(attrs[j].value@),
    decreases attrs.len(),
{
    let rest = sources(attrs.drop_last());
    if j == attrs.len() - 1 {
        assert(sources(attrs) == rest.push(attrs[j].value@));
        assert(sources(attrs)[rest.len() as int] == attrs[j].value@);
    } else {
        assert(attrs.drop_last()[j] == attrs[j]);
        lemma_sources_contains(attrs.drop_last(), j);
        let k = choose|k: int| 0 <= k < rest.len() && rest[k] == attrs[j].value@;
        assert(sources(attrs)[k] == attrs[j].value@);
    }
}

proof fn lemma_refs_of_contains(s: Seq<Node>, i: int, x: Seq<char>)
    requires
        0 <= i < s.len(),
        refs(s[i]).contains(x),
    ensures
        refs_of(s).contains(x),
    decreases s.len(),
{
    let init = s.subrange(0, s.len() - 1);
    let k = choose|k: int| 0 <= k < refs(s[i]).len() && refs(s[i])[k] == x;
    if i == s.len() - 1 {
        assert(refs_of(s)[refs_of(init).len() + k] == x);
    } else {
        assert(init[i] == s[i]);
        lemma_refs_of_contains(init, i, x);
        let m = choose|m: int| 0 <= m < refs_of(init).len() && refs_of(init)[m] == x;
        assert(refs_of(s)[m] == x);
    }
}

/// A rewrite leaves a subtree exactly as it was when no image reference in it
/// has a replacement: every reference that cannot be resolved keeps its value,
/// and every other node keeps its data.
pub proof fn lemma_rewrite_keeps_unreplaced(a: Node, b: Node, table: Seq<(String, String)>)
    requires
        rewritten(a, b, table),
        forall|x: Seq<char>| #[trigger] refs(a).contains(x) ==> lookup(table, x) is None,
    ensures
        same_tree(a, b),
    decreases a,
{
    if is_foreign(a.data) {
        lemma_same_tree_reflexive(a);
    } else {
        match a.data {
            NodeData::Element { name, attrs } => {
                if is_image(name) {
                    match b.data {
                        NodeData::Element { name: name2, attrs: attrs2 } => {
                            assert forall|j: int| 0 <= j < attrs@.len() implies #[trigger] attrs2@[j]
                                == attrs@[j] by {
                                assert(attr_rewritten(attrs@[j], attrs2@[j], table));
                                if is_source(attrs@[j]) {
                                    lemma_sources_contains(attrs@, j);
                                    let k = choose|k: int|
                                        0 <= k < sources(attrs@).len() && sources(attrs@)[k]
                                            == attrs@[j].value@;
                                    assert(refs(a)[k] == attrs@[j].value@);
                                    assert(refs(a).contains(attrs@[j].value@));
                                }
                            }
                            assert(attrs2@ =~= attrs@);
                        },
                        _ => {},
                    }
                }
            },
            _ => {},
        }
        assert forall|i: int| 0 <= i < a.children@.len() implies same_tree(
            #[trigger] a.children@[i],
            b.children@[i],
        ) by {
            let c = a.children@[i];
            assert forall|x: Seq<char>| #[trigger] refs(c).contains(x) implies lookup(
                table,
                x,
            ) is None by {
                lemma_refs_of_contains(a.children@, i, x);
                let m = choose|m: int|
                    0 <= m < refs_of(a.children@).len() && refs_of(a.children@)[m] == x;
                let own = refs(a).len() - refs_of(a.children@).len();
                assert(refs(a)[own + m] == x);
                assert(refs(a).contains(x));
            }
            assert(rewritten(c, b.children@[i], table));
            assert(decreases_to!(a => a.children@[i]));
            lemma_rewrite_keeps_unreplaced(c, b.children@[i], table);
        }
    }
}

/// A document without image references comes out of a rewrite unchanged,
/// whatever the table.
pub proof fn lemma_rewrite_without_images(a: Node, b: Node, table: Seq<(String, String)>)
    requires
        rewritten(a, b, table),
        refs(a).len() == 0,
    ensures
        same_tree(a, b),
{
    lemma_rewrite_keeps_unreplaced(a, b, table);
}

} // verus!
