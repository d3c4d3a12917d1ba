//! `{var_name}` references in scalar values and their expansion from the
//! document's `vars` block.
//!
//! Expansion happens at transpile time; it is not recursive, and the `vars`
//! block itself is never expanded.
use vstd::prelude::*;

use crate::ast::{
    field, lemma_mapping_view, lemma_sequence_view, opt_model, Document, DocumentModel, EntryModel,
    MappingEntry, Node, NodeModel, TopLevelKey,
};
use crate::diagnostics::Span;
use crate::text::{
    chars_of, is_ident_continue, is_ident_start, is_identifier_continue, is_identifier_start,
    push_char, push_str, string_from_chars,
};

verus! {

/// The names and values of the `vars` block, in block order.
#[derive(Clone, Debug)]
pub struct VarsMap {
    entries: Vec<(String, String)>,
}

impl View for VarsMap {
    type V = Seq<(Seq<char>, Seq<char>)>;

    closed spec fn view(&self) -> Seq<(Seq<char>, Seq<char>)> {
        self.entries@.map_values(|p: (String, String)| (p.0@, p.1@))
    }
}

/// The value bound to `name`: the last binding of that name.
pub open spec fn lookup(vars: Seq<(Seq<char>, Seq<char>)>, name: Seq<char>) -> Option<Seq<char>>
    decreases vars.len(),
{
    if vars.len() == 0 {
        None
    } else if vars.last().0 == name {
        Some(vars.last().1)
    } else {
        lookup(vars.drop_last(), name)
    }
}

impl VarsMap {
    /// No bindings.
    pub fn new() -> (m: Self)
        ensures
            m@ == Seq::<(Seq<char>, Seq<char>)>::empty(),
    {
        let m = VarsMap { entries: Vec::new() };
        assert(m@ =~= Seq::<(Seq<char>, Seq<char>)>::empty());
        m
    }

    /// Binds `name` to `value`; a later binding of a name hides an earlier one.
    pub fn insert(&mut self, name: String, value: String)
        ensures
            final(self)@ == old(self)@.push((name@, value@)),
    {
        let ghost before = self@;
        let ghost pair = (name@, value@);
        self.entries.push((name, value));
        assert(self@ =~= before.push(pair));
    }

    /// The bindings `(name, value)`, in order.
    pub fn from_pairs(pairs: Vec<(String, String)>) -> (m: Self)
        ensures
            m@ == pairs@.map_values(|p: (String, String)| (p.0@, p.1@)),
    {
        VarsMap { entries: pairs }
    }

    pub fn is_empty(&self) -> (b: bool)
        ensures
            b == (self@.len() == 0),
    {
        self.entries.len() == 0
    }

    pub fn len(&self) -> (n: usize)
        ensures
            n == self@.len(),
    {
        self.entries.len()
    }

    /// The value bound to `name`.
    pub fn get(&self, name: &str) -> (r: Option<&String>)
        ensures
            match lookup(self@, name@) {
                Some(v) => r is Some && r->0@ == v,
                None => r is None,
            },
    {
        let mut i = self.entries.len();
        assert(self@.take(i as int) =~= self@);
        while i > 0
            invariant
                i <= self.entries@.len(),
                lookup(self@, name@) == lookup(self@.take(i as int), name@),
            decreases i,
        {
            let ghost prefix = self@.take(i as int);
            assert(prefix.last() == self@[i - 1]);
            assert(prefix.drop_last() =~= self@.take(i - 1));
            if crate::text::str_eq(self.entries[i - 1].0.as_str(), name) {
                return Some(&self.entries[i - 1].1);
            }
            i -= 1;
        }
        None
    }
}

/// The identifier grammar `[A-Za-z_][A-Za-z0-9_-]*`.
pub open spec fn valid_key(s: Seq<char>) -> bool {
    s.len() > 0 && is_ident_start(s[0]) && forall|i: int| 1 <= i < s.len() ==> is_ident_continue(#[trigger] s[i])
}

/// Index of the first `}`.
pub open spec fn close_index(s: Seq<char>) -> Option<nat>
    decreases s.len(),
{
    if s.len() == 0 {
        None
    } else if s[0] == '}' {
        Some(0)
    } else {
        match close_index(s.drop_first()) {
            Some(i) => Some(i + 1),
            None => None,
        }
    }
}

/// `value` with every `{name}` whose name is bound in `vars` replaced by its
/// value; everything else passes through unchanged.
pub open spec fn expand_chars(value: Seq<char>, vars: Seq<(Seq<char>, Seq<char>)>) -> Seq<char>
    decreases value.len(),
{
    if value.len() == 0 {
        Seq::empty()
    } else if value[0] != '{' {
        seq![value[0]] + expand_chars(value.drop_first(), vars)
    } else {
        let rest = value.drop_first();
        match close_index(rest) {
            Some(j) => if j < rest.len() {
                let name = rest.take(j as int);
                let replacement = if valid_key(name) && lookup(vars, name) is Some {
                    lookup(vars, name)->0
                } else {
                    seq!['{'] + name + seq!['}']
                };
                replacement + expand_chars(rest.skip(j as int + 1), vars)
            } else {
                seq!['{'] + rest
            },
            None => seq!['{'] + rest,
        }
    }
}

/// The names of the well-formed `{name}` references, in order, repeats kept.
pub open spec fn references(value: Seq<char>) -> Seq<Seq<char>>
    decreases value.len(),
{
    if value.len() == 0 {
        Seq::empty()
    } else if value[0] != '{' {
        references(value.drop_first())
    } else {
        let rest = value.drop_first();
        match close_index(rest) {
            Some(j) => if j < rest.len() {
                let name = rest.take(j as int);
                let here = if valid_key(name) {
                    seq![name]
                } else {
                    Seq::empty()
                };
                here + references(rest.skip(j as int + 1))
            } else {
                Seq::empty()
            },
            None => Seq::empty(),
        }
    }
}

/// The bindings of a `vars` block: its entries with scalar values, in order.
pub open spec fn bindings_of(entries: Seq<EntryModel>) -> Seq<(Seq<char>, Seq<char>)>
    decreases entries.len(),
{
    if entries.len() == 0 {
        Seq::empty()
    } else {
        let before = bindings_of(entries.drop_last());
        match entries.last().value {
            NodeModel::Scalar { value, .. } => before.push((entries.last().key, value)),
            _ => before,
        }
    }
}

/// The bindings of a document's `vars` block; none without a mapping there.
pub open spec fn document_bindings(d: DocumentModel) -> Seq<(Seq<char>, Seq<char>)> {
    match d.vars {
        Some(NodeModel::Mapping { entries, .. }) => bindings_of(entries),
        _ => Seq::empty(),
    }
}

/// A node with every scalar expanded, spans and shape kept.
pub open spec fn expand_node(n: NodeModel, vars: Seq<(Seq<char>, Seq<char>)>) -> NodeModel
    decreases n,
{
    match n {
        NodeModel::Scalar { value, span } => NodeModel::Scalar { value: expand_chars(value, vars), span },
        NodeModel::Sequence { values, span } => NodeModel::Sequence {
            values: Seq::new(
                values.len(),
                |i: int|
                    if 0 <= i < values.len() {
                        expand_node(values[i], vars)
                    } else {
                        NodeModel::Scalar { value: Seq::empty(), span }
                    },
            ),
            span,
        },
        NodeModel::Mapping { entries, span } => NodeModel::Mapping {
            entries: Seq::new(
                entries.len(),
                |i: int|
                    if 0 <= i < entries.len() {
                        EntryModel {
                            key: entries[i].key,
                            value: expand_node(entries[i].value, vars),
                            span: entries[i].span,
                        }
                    } else {
                        EntryModel { key: Seq::empty(), value: NodeModel::Scalar { value: Seq::empty(), span }, span }
                    },
            ),
            span,
        },
    }
}

pub open spec fn expand_opt(n: Option<NodeModel>, vars: Seq<(Seq<char>, Seq<char>)>) -> Option<NodeModel> {
    match n {
        Some(x) => Some(expand_node(x, vars)),
        None => None,
    }
}

/// The document with every prompt value expanded from its own `vars` block;
/// `vars` and the composition directive are kept as they are.
pub open spec fn expand_document_model(d: DocumentModel) -> DocumentModel {
    let vars = document_bindings(d);
    DocumentModel {
        includes: d.includes,
        agent: expand_opt(d.agent, vars),
        system: expand_opt(d.system, vars),
        user: expand_opt(d.user, vars),
        memory: expand_opt(d.memory, vars),
        tools: expand_opt(d.tools, vars),
        output: expand_opt(d.output, vars),
        constraints: expand_opt(d.constraints, vars),
        vars: d.vars,
    }
}

/// Expansion keeps the shape of a node, so its nesting too.
pub proof fn lemma_expand_within_depth(n: NodeModel, vars: Seq<(Seq<char>, Seq<char>)>, b: nat)
    ensures
        crate::ast::within_depth(expand_node(n, vars), b) == crate::ast::within_depth(n, b),
    decreases n,
{
    match n {
        NodeModel::Scalar { .. } => {},
        NodeModel::Sequence { values, .. } => {
            if b >= 1 {
                assert forall|i: int| 0 <= i < values.len() implies crate::ast::within_depth(
                    #[trigger] expand_node(n, vars)->values[i],
                    (b - 1) as nat,
                ) == crate::ast::within_depth(values[i], (b - 1) as nat) by {
                    lemma_expand_within_depth(values[i], vars, (b - 1) as nat);
                }
                let e = expand_node(n, vars)->values;
                if crate::ast::within_depth(n, b) {
                    assert forall|i: int| 0 <= i < e.len() implies crate::ast::within_depth(
                        #[trigger] e[i],
                        (b - 1) as nat,
                    ) by {
                        assert(crate::ast::within_depth(values[i], (b - 1) as nat));
                    }
                }
                if crate::ast::within_depth(expand_node(n, vars), b) {
                    assert forall|i: int| 0 <= i < values.len() implies crate::ast::within_depth(
                        #[trigger] values[i],
                        (b - 1) as nat,
                    ) by {
                        assert(crate::ast::within_depth(e[i], (b - 1) as nat));
                    }
                }
            }
        },
        NodeModel::Mapping { entries, .. } => {
            if b >= 1 {
                assert forall|i: int| 0 <= i < entries.len() implies crate::ast::within_depth(
                    #[trigger] expand_node(n, vars)->entries[i].value,
                    (b - 1) as nat,
                ) == crate::ast::within_depth(entries[i].value, (b - 1) as nat) by {
                    lemma_expand_within_depth(entries[i].value, vars, (b - 1) as nat);
                }
                let e = expand_node(n, vars)->entries;
                if crate::ast::within_depth(n, b) {
                    assert forall|i: int| 0 <= i < e.len() implies crate::ast::within_depth(
                        #[trigger] e[i].value,
                        (b - 1) as nat,
                    ) by {
                        assert(crate::ast::within_depth(entries[i].value, (b - 1) as nat));
                    }
                }
                if crate::ast::within_depth(expand_node(n, vars), b) {
                    assert forall|i: int| 0 <= i < entries.len() implies crate::ast::within_depth(
                        #[trigger] entries[i].value,
                        (b - 1) as nat,
                    ) by {
                        assert(crate::ast::within_depth(e[i].value, (b - 1) as nat));
                    }
                }
            }
        },
    }
}

/// Expansion keeps a document within the nesting limit.
pub proof fn lemma_expand_document_within_depth(d: DocumentModel)
    requires
        crate::ast::document_within_depth(d),
    ensures
        crate::ast::document_within_depth(expand_document_model(d)),
{
    let v = document_bindings(d);
    let b = crate::ast::max_nesting();
    if let Some(n) = d.agent { lemma_expand_within_depth(n, v, b); }
    if let Some(n) = d.system { lemma_expand_within_depth(n, v, b); }
    if let Some(n) = d.user { lemma_expand_within_depth(n, v, b); }
    if let Some(n) = d.memory { lemma_expand_within_depth(n, v, b); }
    if let Some(n) = d.tools { lemma_expand_within_depth(n, v, b); }
    if let Some(n) = d.output { lemma_expand_within_depth(n, v, b); }
    if let Some(n) = d.constraints { lemma_expand_within_depth(n, v, b); }
}

proof fn lemma_close_index(s: Seq<char>, k: int)
    requires
        0 <= k <= s.len(),
        forall|j: int| 0 <= j < k ==> s[j] != '}',
    ensures
        k < s.len() && s[k] == '}' ==> close_index(s) == Some(k as nat),
        k == s.len() ==> close_index(s) is None,
    decreases k,
{
    if k > 0 {
        assert forall|j: int| 0 <= j < k - 1 implies s.drop_first()[j] != '}' by {
            assert(s.drop_first()[j] == s[j + 1]);
        }
        if k < s.len() {
            assert(s.drop_first()[k - 1] == s[k]);
        }
        lemma_close_index(s.drop_first(), k - 1);
    }
}

/// Whether `name` matches the identifier grammar.
pub fn is_valid_key(name: &str) -> (b: bool)
    ensures
        b == valid_key(name@),
{
    let cs = chars_of(name);
    if cs.len() == 0 || !is_identifier_start(cs[0]) {
        return false;
    }
    let mut i: usize = 1;
    while i < cs.len()
        invariant
            1 <= i <= cs@.len(),
            cs@ == name@,
            forall|j: int| 1 <= j < i ==> is_ident_continue(#[trigger] cs@[j]),
        decreases cs@.len() - i,
    {
        if !is_identifier_continue(cs[i]) {
            return false;
        }
        i += 1;
    }
    true
}

/// Where the reference opened at `open` ends: the index of its `}`, or the
/// length when it is not closed.
fn find_close(cs: &Vec<char>, open: usize) -> (j: usize)
    requires
        open < cs@.len(),
    ensures
        open < j <= cs@.len(),
        match close_index(cs@.skip(open + 1)) {
            Some(k) => j == open + 1 + k && j < cs@.len(),
            None => j == cs@.len(),
        },
{
    let n = cs.len();
    let mut j = open + 1;
    while j < n && cs[j] != '}'
        invariant
            open < j <= cs@.len(),
            n == cs@.len(),
            forall|k: int| open + 1 <= k < j ==> cs@[k] != '}',
        decreases cs@.len() - j,
    {
        j += 1;
    }
    proof {
        let rest = cs@.skip(open + 1);
        assert forall|k: int| 0 <= k < j - open - 1 implies rest[k] != '}' by {
            assert(rest[k] == cs@[open + 1 + k]);
        }
        if j < cs@.len() {
            assert(rest[j - open - 1] == cs@[j as int]);
        }
        lemma_close_index(rest, j - open - 1);
    }
    j
}

/// Expands the `{name}` references of `value` bound in `vars`; unknown or
/// malformed references pass through verbatim. The expansion is not recursive.
pub fn expand(value: &str, vars: &VarsMap) -> (r: String)
    ensures
        r@ == expand_chars(value@, vars@),
{
    let cs = chars_of(value);
    let mut r = String::new();
    let mut i: usize = 0;
    assert(cs@.skip(0) =~= cs@);
    while i < cs.len()
        invariant
            i <= cs@.len(),
            cs@ == value@,
            expand_chars(value@, vars@) == r@ + expand_chars(cs@.skip(i as int), vars@),
        decreases cs@.len() - i,
    {
        let ghost rest_here = cs@.skip(i as int);
        if cs[i] != '{' {
            proof {
                assert(rest_here.drop_first() =~= cs@.skip(i + 1));
                assert(rest_here[0] == cs@[i as int]);
            }
            push_char(&mut r, cs[i]);
            proof {
                assert(r@ + expand_chars(cs@.skip(i + 1), vars@) =~= (r@.drop_last() + seq![cs@[i as int]]) + expand_chars(cs@.skip(i + 1), vars@));
            }
            i += 1;
        } else {
            let j = find_close(&cs, i);
            let ghost rest = rest_here.drop_first();
            assert(rest =~= cs@.skip(i + 1));
            let name = string_from_chars(&cs, i + 1, j);
            if j < cs.len() {
                assert(name@ =~= rest.take((j - i - 1) as int));
                assert(rest.skip(j - i - 1 + 1) =~= cs@.skip(j + 1));
                let ghost before = r@;
                let found = if is_valid_key(name.as_str()) {
                    vars.get(name.as_str())
                } else {
                    None
                };
                match found {
                    Some(v) => {
                        push_str(&mut r, v.as_str());
                    },
                    None => {
                        push_char(&mut r, '{');
                        push_str(&mut r, name.as_str());
                        push_char(&mut r, '}');
                        assert(r@ =~= before + (seq!['{'] + name@ + seq!['}']));
                    },
                }
                i = j + 1;
            } else {
                assert(name@ =~= rest);
                push_char(&mut r, '{');
                push_str(&mut r, name.as_str());
                assert(cs@.skip(cs@.len() as int).len() == 0);
                assert(r@ + expand_chars(cs@.skip(cs@.len() as int), vars@) =~= r@);
                i = cs.len();
            }
        }
    }
    assert(cs@.skip(cs@.len() as int).len() == 0);
    assert(r@ + expand_chars(cs@.skip(i as int), vars@) =~= r@);
    r
}

/// The names of the well-formed `{name}` references of `value`, in order,
/// repeats kept.
pub fn extract_references(value: &str) -> (r: Vec<String>)
    ensures
        r@.map_values(|s: String| s@) == references(value@),
{
    let cs = chars_of(value);
    let mut r: Vec<String> = Vec::new();
    let mut i: usize = 0;
    assert(cs@.skip(0) =~= cs@);
    assert(r@.map_values(|s: String| s@) + references(cs@) =~= references(cs@));
    while i < cs.len()
        invariant
            i <= cs@.len(),
            cs@ == value@,
            references(value@) == r@.map_values(|s: String| s@) + references(cs@.skip(i as int)),
        decreases cs@.len() - i,
    {
        let ghost rest_here = cs@.skip(i as int);
        let ghost before = r@.map_values(|s: String| s@);
        if cs[i] != '{' {
            assert(rest_here.drop_first() =~= cs@.skip(i + 1));
            i += 1;
        } else {
            let j = find_close(&cs, i);
            let ghost rest = rest_here.drop_first();
            assert(rest =~= cs@.skip(i + 1));
            if j < cs.len() {
                let name = string_from_chars(&cs, i + 1, j);
                assert(name@ =~= rest.take((j - i - 1) as int));
                assert(rest.skip(j - i - 1 + 1) =~= cs@.skip(j + 1));
                if is_valid_key(name.as_str()) {
                    let ghost nm = name@;
                    r.push(name);
                    assert(r@.map_values(|s: String| s@) =~= before.push(nm));
                    assert(before.push(nm) + references(cs@.skip(j + 1)) =~= before + (seq![nm]
                        + references(cs@.skip(j + 1))));
                } else {
                    assert(before + (Seq::<Seq<char>>::empty() + references(cs@.skip(j + 1)))
                        =~= before + references(cs@.skip(j + 1)));
                }
                i = j + 1;
            } else {
                assert(before + references(rest_here) =~= before);
                assert(cs@.skip(cs@.len() as int).len() == 0);
                i = cs.len();
            }
        }
    }
    assert(cs@.skip(cs@.len() as int).len() == 0);
    assert(r@.map_values(|s: String| s@) + references(cs@.skip(i as int)) =~= r@.map_values(
        |s: String| s@,
    ));
    r
}

/// The bindings of the document's `vars` block: its entries with scalar
/// values, in order. None when there is no `vars` mapping.
pub fn build_vars_map(document: &Document) -> (m: VarsMap)
    ensures
        m@ == document_bindings(document@),
{
    let mut m = VarsMap::new();
    match &document.vars {
        Some(Node::Mapping { entries, span }) => {
            proof {
                lemma_mapping_view(*entries, *span);
            }
            let ghost es = entries@.map_values(|e: MappingEntry| e@);
            let mut i: usize = 0;
            while i < entries.len()
                invariant
                    i <= entries@.len(),
                    es == entries@.map_values(|e: MappingEntry| e@),
                    m@ == bindings_of(es.take(i as int)),
                decreases entries@.len() - i,
            {
                assert(es.take(i + 1).drop_last() =~= es.take(i as int));
                assert(es[i as int] == entries@[i as int]@);
                match &entries[i].value {
                    Node::Scalar { value, .. } => {
                        m.insert(entries[i].key.clone(), value.clone());
                    },
                    _ => {},
                }
                i += 1;
            }
            assert(es.take(entries@.len() as int) =~= es);
        },
        _ => {},
    }
    m
}

#[verifier::loop_isolation(false)]
fn expand_node_tree(node: &Node, vars: &VarsMap) -> (r: Node)
    ensures
        r@ == expand_node(node@, vars@),
    decreases node,
{
    match node {
        Node::Scalar { value, span } => Node::Scalar { value: expand(value.as_str(), vars), span: *span },
        Node::Sequence { values, span } => {
            proof {
                lemma_sequence_view(*values, *span);
            }
            let mut out: Vec<Node> = Vec::new();
            let mut i: usize = 0;
            while i < values.len()
                invariant
                    i <= values@.len(),
                    out@.len() == i,
                    forall|j: int| 0 <= j < i ==> (#[trigger] out@[j])@ == expand_node(values@[j]@, vars@),
                decreases values@.len() - i,
            {
                proof {
                    assert(decreases_to!(*node => *values));
                    assert(decreases_to!(*values => values@));
                    assert(decreases_to!(values@ => values@[i as int]));
                }
                out.push(expand_node_tree(&values[i], vars));
                i += 1;
            }
            proof {
                lemma_sequence_view(out, *span);
                let expected = expand_node(node@, vars@);
                assert(out@.map_values(|x: Node| x@) =~= expected->values);
            }
            Node::Sequence { values: out, span: *span }
        },
        Node::Mapping { entries, span } => {
            proof {
                lemma_mapping_view(*entries, *span);
            }
            let mut out: Vec<MappingEntry> = Vec::new();
            let mut i: usize = 0;
            while i < entries.len()
                invariant
                    i <= entries@.len(),
                    out@.len() == i,
                    forall|j: int|
                        0 <= j < i ==> (#[trigger] out@[j])@ == (EntryModel {
                            key: entries@[j].key@,
                            value: expand_node(entries@[j].value@, vars@),
                            span: entries@[j].span,
                        }),
                decreases entries@.len() - i,
            {
                proof {
                    assert(decreases_to!(*node => *entries));
                    assert(decreases_to!(*entries => entries@));
                    assert(decreases_to!(entries@ => entries@[i as int]));
                    assert(decreases_to!(entries@[i as int] => entries@[i as int].value));
                }
                let value = expand_node_tree(&entries[i].value, vars);
                out.push(MappingEntry::new(entries[i].key.clone(), value, entries[i].span));
                i += 1;
            }
            proof {
                lemma_mapping_view(out, *span);
                let expected = expand_node(node@, vars@);
                assert(out@.map_values(|x: MappingEntry| x@) =~= expected->entries);
            }
            Node::Mapping { entries: out, span: *span }
        },
    }
}

fn expand_slot(slot: &Option<Node>, vars: &VarsMap) -> (r: Option<Node>)
    ensures
        opt_model(r) == expand_opt(opt_model(*slot), vars@),
{
    match slot {
        Some(n) => Some(expand_node_tree(n, vars)),
        None => None,
    }
}

/// A copy of `document` with every `{name}` reference in its prompt values
/// replaced from its own `vars` block. `vars` itself is copied unexpanded.
pub fn expand_document(document: &Document) -> (r: Document)
    ensures
        r@ == expand_document_model(document@),
{
    let vars = build_vars_map(document);
    let copy = document.clone();
    Document {
        includes: copy.includes,
        agent: expand_slot(&document.agent, &vars),
        system: expand_slot(&document.system, &vars),
        user: expand_slot(&document.user, &vars),
        memory: expand_slot(&document.memory, &vars),
        tools: expand_slot(&document.tools, &vars),
        output: expand_slot(&document.output, &vars),
        constraints: expand_slot(&document.constraints, &vars),
        vars: copy.vars,
    }
}

// ---------------------------------------------------------------------------
// Laws.
// ---------------------------------------------------------------------------

/// The first `}` that `close_index` finds is one.
proof fn lemma_close_index_found(s: Seq<char>)
    ensures
        close_index(s) matches Some(j) ==> j < s.len() && s[j as int] == '}',
    decreases s.len(),
{
    if s.len() > 0 && s[0] != '}' {
        lemma_close_index_found(s.drop_first());
    }
}

/// With no bindings, expansion gives every value back unchanged.
pub proof fn law_expand_without_bindings(value: Seq<char>)
    ensures
        expand_chars(value, Seq::empty()) == value,
    decreases value.len(),
{
    if value.len() > 0 {
        if value[0] != '{' {
            law_expand_without_bindings(value.drop_first());
            assert(value =~= seq![value[0]] + value.drop_first());
        } else {
            let rest = value.drop_first();
            lemma_close_index_found(rest);
            match close_index(rest) {
                Some(j) => {
                    if j < rest.len() {
                        let name = rest.take(j as int);
                        law_expand_without_bindings(rest.skip(j as int + 1));
                        assert(value =~= seq!['{'] + name + seq!['}'] + rest.skip(j as int + 1));
                    } else {
                        assert(value =~= seq!['{'] + rest);
                    }
                },
                None => {
                    assert(value =~= seq!['{'] + rest);
                },
            }
        }
    }
}

/// A value without `{` is given back unchanged, whatever the bindings.
pub proof fn law_expand_without_braces(value: Seq<char>, vars: Seq<(Seq<char>, Seq<char>)>)
    requires
        forall|i: int| 0 <= i < value.len() ==> value[i] != '{',
    ensures
        expand_chars(value, vars) == value,
    decreases value.len(),
{
    if value.len() > 0 {
        law_expand_without_braces(value.drop_first(), vars);
        assert(value =~= seq![value[0]] + value.drop_first());
    }
}

/// A reference to a bound name becomes the bound value as it stands:
/// references inside the value are not expanded in turn.
pub proof fn law_expand_reference(name: Seq<char>, vars: Seq<(Seq<char>, Seq<char>)>)
    requires
        valid_key(name),
        lookup(vars, name) is Some,
    ensures
        expand_chars(seq!['{'] + name + seq!['}'], vars) == lookup(vars, name)->0,
{
    let value = seq!['{'] + name + seq!['}'];
    let rest = value.drop_first();
    assert(rest =~= name + seq!['}']);
    assert forall|j: int| 0 <= j < name.len() implies rest[j] != '}' by {
        if j > 0 {
            assert(is_ident_continue(name[j]));
        }
    }
    lemma_close_index(rest, name.len() as int);
    assert(value[0] == '{');
    assert(rest.take(name.len() as int) =~= name);
    assert(rest.skip(name.len() as int + 1) =~= Seq::<char>::empty());
    assert(expand_chars(rest.skip(name.len() as int + 1), vars) =~= Seq::<char>::empty());
    assert(lookup(vars, name)->0 + Seq::<char>::empty() =~= lookup(vars, name)->0);
}

/// Every reference name is a well-formed key.
pub proof fn law_references_are_keys(value: Seq<char>)
    ensures
        forall|i: int| 0 <= i < references(value).len() ==> valid_key(#[trigger] references(value)[i]),
    decreases value.len(),
{
    if value.len() > 0 {
        if value[0] != '{' {
            law_references_are_keys(value.drop_first());
            assert(references(value) == references(value.drop_first()));
        } else {
            let rest = value.drop_first();
            match close_index(rest) {
                Some(j) => {
                    if j < rest.len() {
                        let name = rest.take(j as int);
                        law_references_are_keys(rest.skip(j as int + 1));
                        let here = if valid_key(name) {
                            seq![name]
                        } else {
                            Seq::empty()
                        };
                        let tail = references(rest.skip(j as int + 1));
                        assert(references(value) == here + tail);
                        assert forall|i: int| 0 <= i < (here + tail).len() implies valid_key(
                            #[trigger] (here + tail)[i],
                        ) by {
                            if i >= here.len() {
                                assert((here + tail)[i] == tail[i - here.len()]);
                            } else {
                                assert((here + tail)[i] == name);
                            }
                        }
                    }
                },
                None => {},
            }
        }
    }
}

/// With no bindings, expansion keeps a node as it is.
pub proof fn law_expand_node_without_bindings(n: NodeModel)
    ensures
        expand_node(n, Seq::empty()) == n,
    decreases n,
{
    match n {
        NodeModel::Scalar { value, .. } => {
            law_expand_without_bindings(value);
        },
        NodeModel::Sequence { values, span } => {
            assert forall|i: int| 0 <= i < values.len() implies expand_node(values[i], Seq::empty())
                == values[i] by {
                law_expand_node_without_bindings(values[i]);
            }
            assert(expand_node(n, Seq::empty())->values =~= values);
        },
        NodeModel::Mapping { entries, span } => {
            assert forall|i: int| 0 <= i < entries.len() implies expand_node(
                entries[i].value,
                Seq::empty(),
            ) == entries[i].value by {
                law_expand_node_without_bindings(entries[i].value);
            }
            assert(expand_node(n, Seq::empty())->entries =~= entries);
        },
    }
}

/// A document without bindings is its own expansion.
pub proof fn law_expand_document_without_bindings(d: DocumentModel)
    requires
        document_bindings(d).len() == 0,
    ensures
        expand_document_model(d) == d,
{
    let v = document_bindings(d);
    assert(v =~= Seq::<(Seq<char>, Seq<char>)>::empty());
    if let Some(n) = d.agent { law_expand_node_without_bindings(n); }
    if let Some(n) = d.system { law_expand_node_without_bindings(n); }
    if let Some(n) = d.user { law_expand_node_without_bindings(n); }
    if let Some(n) = d.memory { law_expand_node_without_bindings(n); }
    if let Some(n) = d.tools { law_expand_node_without_bindings(n); }
    if let Some(n) = d.output { law_expand_node_without_bindings(n); }
    if let Some(n) = d.constraints { law_expand_node_without_bindings(n); }
}

/// Whether no scalar of `n` holds a reference.
pub open spec fn node_reference_free(n: NodeModel) -> bool
    decreases n,
{
    match n {
        NodeModel::Scalar { value, .. } => references(value).len() == 0,
        NodeModel::Sequence { values, .. } => forall|i: int|
            0 <= i < values.len() ==> node_reference_free(#[trigger] values[i]),
        NodeModel::Mapping { entries, .. } => forall|i: int|
            0 <= i < entries.len() ==> node_reference_free(#[trigger] entries[i].value),
    }
}

pub open spec fn opt_reference_free(n: Option<NodeModel>) -> bool {
    match n {
        Some(x) => node_reference_free(x),
        None => true,
    }
}

/// Whether no value that expansion reads holds a reference.
pub open spec fn document_reference_free(d: DocumentModel) -> bool {
    &&& opt_reference_free(d.agent)
    &&& opt_reference_free(d.system)
    &&& opt_reference_free(d.user)
    &&& opt_reference_free(d.memory)
    &&& opt_reference_free(d.tools)
    &&& opt_reference_free(d.output)
    &&& opt_reference_free(d.constraints)
}

/// A value without references is given back unchanged, whatever the
/// bindings.
pub proof fn law_expand_without_references(value: Seq<char>, vars: Seq<(Seq<char>, Seq<char>)>)
    requires
        references(value).len() == 0,
    ensures
        expand_chars(value, vars) == value,
    decreases value.len(),
{
    if value.len() > 0 {
        if value[0] != '{' {
            law_expand_without_references(value.drop_first(), vars);
            assert(value =~= seq![value[0]] + value.drop_first());
        } else {
            let rest = value.drop_first();
            lemma_close_index_found(rest);
            match close_index(rest) {
                Some(j) => {
                    if j < rest.len() {
                        let name = rest.take(j as int);
                        let here = if valid_key(name) {
                            seq![name]
                        } else {
                            Seq::empty()
                        };
                        assert(references(value) == here + references(rest.skip(j as int + 1)));
                        assert(!valid_key(name));
                        law_expand_without_references(rest.skip(j as int + 1), vars);
                        assert(value =~= seq!['{'] + name + seq!['}'] + rest.skip(j as int + 1));
                    } else {
                        assert(value =~= seq!['{'] + rest);
                    }
                },
                None => {
                    assert(value =~= seq!['{'] + rest);
                },
            }
        }
    }
}

/// A node without references is its own expansion, whatever the bindings.
pub proof fn law_expand_node_without_references(n: NodeModel, vars: Seq<(Seq<char>, Seq<char>)>)
    requires
        node_reference_free(n),
    ensures
        expand_node(n, vars) == n,
    decreases n,
{
    match n {
        NodeModel::Scalar { value, .. } => {
            law_expand_without_references(value, vars);
        },
        NodeModel::Sequence { values, span } => {
            assert forall|i: int| 0 <= i < values.len() implies expand_node(values[i], vars)
                == values[i] by {
                law_expand_node_without_references(values[i], vars);
            }
            assert(expand_node(n, vars)->values =~= values);
        },
        NodeModel::Mapping { entries, span } => {
            assert forall|i: int| 0 <= i < entries.len() implies expand_node(
                entries[i].value,
                vars,
            ) == entries[i].value by {
                law_expand_node_without_references(entries[i].value, vars);
            }
            assert(expand_node(n, vars)->entries =~= entries);
        },
    }
}

/// A document without references is its own expansion, whatever its
/// `vars` block binds.
pub proof fn law_expand_document_without_references(d: DocumentModel)
    requires
        document_reference_free(d),
    ensures
        expand_document_model(d) == d,
{
    let v = document_bindings(d);
    if let Some(n) = d.agent { law_expand_node_without_references(n, v); }
    if let Some(n) = d.system { law_expand_node_without_references(n, v); }
    if let Some(n) = d.user { law_expand_node_without_references(n, v); }
    if let Some(n) = d.memory { law_expand_node_without_references(n, v); }
    if let Some(n) = d.tools { law_expand_node_without_references(n, v); }
    if let Some(n) = d.output { law_expand_node_without_references(n, v); }
    if let Some(n) = d.constraints { law_expand_node_without_references(n, v); }
}

/// The keys whose values expansion rewrites: every reserved key but `vars`.
pub open spec fn prompt_key(k: TopLevelKey) -> bool {
    k != TopLevelKey::Vars
}

/// Under every prompt key, a value that is one reference to a bound name
/// expands to the bound value: the document's own `vars` block supplies it.
pub proof fn law_prompt_reference_expands(d: DocumentModel, k: TopLevelKey, name: Seq<char>, span: Span)
    requires
        prompt_key(k),
        valid_key(name),
        field(d, k) == Some(NodeModel::Scalar { value: seq!['{'] + name + seq!['}'], span }),
        lookup(document_bindings(d), name) is Some,
    ensures
        field(expand_document_model(d), k) == Some(
            NodeModel::Scalar { value: lookup(document_bindings(d), name)->0, span },
        ),
{
    law_expand_reference(name, document_bindings(d));
}

/// Expansion leaves the `vars` block and the shape of every prompt value as
/// they are: a key is present after expansion exactly where it was before.
pub proof fn law_expansion_keeps_keys(d: DocumentModel, k: TopLevelKey)
    ensures
        field(expand_document_model(d), k) is Some <==> field(d, k) is Some,
        expand_document_model(d).vars == d.vars,
{
}

} // verus!
