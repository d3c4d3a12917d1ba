//! The document tree: a root with one slot per reserved top-level key, and a
//! generic node model of scalars, sequences and mappings.
use vstd::prelude::*;

use crate::diagnostics::Span;
use crate::text::{str_eq, string_of};

verus! {

#[derive(Debug)]
pub struct MappingEntry {
    pub key: String,
    pub value: Node,
    pub span: Span,
}

#[derive(Debug)]
pub enum Node {
    Scalar { value: String, span: Span },
    Sequence { values: Vec<Node>, span: Span },
    Mapping { entries: Vec<MappingEntry>, span: Span },
}

/// What a node holds, with texts as character sequences.
pub ghost enum NodeModel {
    Scalar { value: Seq<char>, span: Span },
    Sequence { values: Seq<NodeModel>, span: Span },
    Mapping { entries: Seq<EntryModel>, span: Span },
}

/// What a mapping entry holds.
pub ghost struct EntryModel {
    pub key: Seq<char>,
    pub value: NodeModel,
    pub span: Span,
}

pub open spec fn zero_span() -> Span {
    Span { line: 0, column: 0 }
}

pub open spec fn node_model(n: Node) -> NodeModel
    decreases n,
{
    match n {
        Node::Scalar { value, span } => NodeModel::Scalar { value: value@, span },
        Node::Sequence { values, span } => NodeModel::Sequence {
            values: Seq::new(
                values@.len(),
                |i: int|
                    if 0 <= i < values@.len() {
                        node_model(values@[i])
                    } else {
                        NodeModel::Scalar { value: Seq::empty(), span }
                    },
            ),
            span,
        },
        Node::Mapping { entries, span } => NodeModel::Mapping {
            entries: Seq::new(
                entries@.len(),
                |i: int|
                    if 0 <= i < entries@.len() {
                        EntryModel {
                            key: entries@[i].key@,
                            value: node_model(entries@[i].value),
                            span: entries@[i].span,
                        }
                    } else {
                        EntryModel {
                            key: Seq::empty(),
                            value: NodeModel::Scalar { value: Seq::empty(), span },
                            span,
                        }
                    },
            ),
            span,
        },
    }
}

impl View for Node {
    type V = NodeModel;

    open spec fn view(&self) -> NodeModel {
        node_model(*self)
    }
}

impl View for MappingEntry {
    type V = EntryModel;

    open spec fn view(&self) -> EntryModel {
        EntryModel { key: self.key@, value: self.value@, span: self.span }
    }
}

pub proof fn lemma_sequence_view(values: Vec<Node>, span: Span)
    ensures
        (Node::Sequence { values, span })@ == (NodeModel::Sequence {
            values: values@.map_values(|n: Node| n@),
            span,
        }),
{
    let n = Node::Sequence { values, span };
    match n@ {
        NodeModel::Sequence { values: vs, .. } => {
            assert(vs =~= values@.map_values(|n: Node| n@));
        },
        _ => {},
    }
}

pub proof fn lemma_mapping_view(entries: Vec<MappingEntry>, span: Span)
    ensures
        (Node::Mapping { entries, span })@ == (NodeModel::Mapping {
            entries: entries@.map_values(|e: MappingEntry| e@),
            span,
        }),
{
    let n = Node::Mapping { entries, span };
    match n@ {
        NodeModel::Mapping { entries: es, .. } => {
            assert(es =~= entries@.map_values(|e: MappingEntry| e@));
        },
        _ => {},
    }
}

/// The items of a sequence nest one level less deep than the sequence.
pub proof fn lemma_sequence_child_depth(values: Vec<Node>, span: Span, depth: nat, i: int)
    requires
        within_depth((Node::Sequence { values, span })@, depth),
        0 <= i < values@.len(),
    ensures
        depth >= 1,
        within_depth(values@[i]@, (depth - 1) as nat),
{
    lemma_sequence_view(values, span);
    let vm = values@.map_values(|n: Node| n@);
    let m = NodeModel::Sequence { values: vm, span };
    assert(within_depth(m, depth));
    match m {
        NodeModel::Sequence { values: w, .. } => {
            assert(w == vm);
            assert(depth >= 1 && forall|j: int|
                0 <= j < w.len() ==> within_depth(#[trigger] w[j], (depth - 1) as nat));
        },
        _ => {},
    }
    assert(vm[i] == values@[i]@);
    assert(within_depth(vm[i], (depth - 1) as nat));
}

/// The entry values of a mapping nest one level less deep than the mapping.
pub proof fn lemma_mapping_child_depth(entries: Vec<MappingEntry>, span: Span, depth: nat, i: int)
    requires
        within_depth((Node::Mapping { entries, span })@, depth),
        0 <= i < entries@.len(),
    ensures
        depth >= 1,
        within_depth(entries@[i].value@, (depth - 1) as nat),
{
    lemma_mapping_view(entries, span);
    let em = entries@.map_values(|e: MappingEntry| e@);
    let m = NodeModel::Mapping { entries: em, span };
    assert(within_depth(m, depth));
    assert(em[i] == entries@[i]@);
    assert(within_depth(em[i].value, (depth - 1) as nat));
}

/// The span of a node.
pub open spec fn model_span(n: NodeModel) -> Span {
    match n {
        NodeModel::Scalar { span, .. } => span,
        NodeModel::Sequence { span, .. } => span,
        NodeModel::Mapping { span, .. } => span,
    }
}

/// A node with every span set to zero: what `==` on nodes compares.
pub open spec fn strip_spans(n: NodeModel) -> NodeModel
    decreases n,
{
    match n {
        NodeModel::Scalar { value, .. } => NodeModel::Scalar { value, span: zero_span() },
        NodeModel::Sequence { values, .. } => NodeModel::Sequence {
            values: Seq::new(
                values.len(),
                |i: int|
                    if 0 <= i < values.len() {
                        strip_spans(values[i])
                    } else {
                        NodeModel::Scalar { value: Seq::empty(), span: zero_span() }
                    },
            ),
            span: zero_span(),
        },
        NodeModel::Mapping { entries, .. } => NodeModel::Mapping {
            entries: Seq::new(
                entries.len(),
                |i: int|
                    if 0 <= i < entries.len() {
                        EntryModel {
                            key: entries[i].key,
                            value: strip_spans(entries[i].value),
                            span: zero_span(),
                        }
                    } else {
                        EntryModel {
                            key: Seq::empty(),
                            value: NodeModel::Scalar { value: Seq::empty(), span: zero_span() },
                            span: zero_span(),
                        }
                    },
            ),
            span: zero_span(),
        },
    }
}

/// Whether `n` nests fewer than `b` blocks deep.
pub open spec fn within_depth(n: NodeModel, b: nat) -> bool
    decreases n,
{
    match n {
        NodeModel::Scalar { .. } => true,
        NodeModel::Sequence { values, .. } => b >= 1 && forall|i: int|
            0 <= i < values.len() ==> within_depth(#[trigger] values[i], (b - 1) as nat),
        NodeModel::Mapping { entries, .. } => b >= 1 && forall|i: int|
            0 <= i < entries.len() ==> within_depth(#[trigger] entries[i].value, (b - 1) as nat),
    }
}

/// The deepest nesting whose indentation still fits in a `usize`.
pub open spec fn max_nesting() -> nat {
    ((usize::MAX - 8) / 2) as nat
}

/// `kind_name` of a node.
pub open spec fn kind_name_of(n: NodeModel) -> Seq<char> {
    match n {
        NodeModel::Scalar { .. } => "scalar"@,
        NodeModel::Sequence { .. } => "sequence"@,
        NodeModel::Mapping { .. } => "mapping"@,
    }
}

/// Index of the first entry whose key is `key`.
pub open spec fn first_entry_with_key(entries: Seq<EntryModel>, key: Seq<char>) -> Option<int> {
    if exists|i: int| 0 <= i < entries.len() && entries[i].key == key {
        Some(
            choose|i: int|
                0 <= i < entries.len() && entries[i].key == key && forall|j: int|
                    0 <= j < i ==> entries[j].key != key,
        )
    } else {
        None
    }
}

pub proof fn lemma_first_entry_with_key(entries: Seq<EntryModel>, key: Seq<char>, i: int)
    requires
        0 <= i < entries.len(),
        entries[i].key == key,
        forall|j: int| 0 <= j < i ==> entries[j].key != key,
    ensures
        first_entry_with_key(entries, key) == Some(i),
{
    let k = choose|k: int|
        0 <= k < entries.len() && entries[k].key == key && forall|j: int|
            0 <= j < k ==> entries[j].key != key;
    assert(0 <= k < entries.len() && entries[k].key == key && forall|j: int|
        0 <= j < k ==> entries[j].key != key);
    if k < i {
        assert(entries[k].key != key);
    } else if k > i {
        assert(entries[i].key != key);
    }
}

#[verifier::loop_isolation(false)]
fn clone_node(n: &Node) -> (r: Node)
    ensures
        r@ == n@,
    decreases n,
{
    match n {
        Node::Scalar { value, span } => Node::Scalar { value: value.clone(), span: *span },
        Node::Sequence { values, span } => {
            let mut out: Vec<Node> = Vec::new();
            let mut i: usize = 0;
            while i < values.len()
                invariant
                    i <= values@.len(),
                    out@.len() == i,
                    forall|j: int| 0 <= j < i ==> (#[trigger] out@[j])@ == values@[j]@,
                decreases values@.len() - i,
            {
                proof {
                    assert(decreases_to!(*n => *values));
                    assert(decreases_to!(*values => values@));
                    assert(decreases_to!(values@ => values@[i as int]));
                }
                out.push(clone_node(&values[i]));
                i += 1;
            }
            proof {
                lemma_sequence_view(out, *span);
                lemma_sequence_view(*values, *span);
                assert(out@.map_values(|x: Node| x@) =~= values@.map_values(|x: Node| x@));
            }
            Node::Sequence { values: out, span: *span }
        },
        Node::Mapping { entries, span } => {
            let mut out: Vec<MappingEntry> = Vec::new();
            let mut i: usize = 0;
            while i < entries.len()
                invariant
                    i <= entries@.len(),
                    out@.len() == i,
                    forall|j: int| 0 <= j < i ==> (#[trigger] out@[j])@ == entries@[j]@,
                decreases entries@.len() - i,
            {
                proof {
                    assert(decreases_to!(*n => *entries));
                    assert(decreases_to!(*entries => entries@));
                    assert(decreases_to!(entries@ => entries@[i as int]));
                    assert(decreases_to!(entries@[i as int] => entries@[i as int].value));
                }
                let value = clone_node(&entries[i].value);
                out.push(MappingEntry { key: entries[i].key.clone(), value, span: entries[i].span });
                i += 1;
            }
            proof {
                lemma_mapping_view(out, *span);
                lemma_mapping_view(*entries, *span);
                assert(out@.map_values(|x: MappingEntry| x@) =~= entries@.map_values(
                    |x: MappingEntry| x@,
                ));
            }
            Node::Mapping { entries: out, span: *span }
        },
    }
}

impl Clone for Node {
    fn clone(&self) -> (r: Self)
        ensures
            r@ == self@,
    {
        clone_node(self)
    }
}

impl Clone for MappingEntry {
    fn clone(&self) -> (r: Self)
        ensures
            r@ == self@,
    {
        MappingEntry { key: self.key.clone(), value: clone_node(&self.value), span: self.span }
    }
}

#[verifier::loop_isolation(false)]
fn nodes_equal(a: &Node, b: &Node) -> (r: bool)
    ensures
        r == (strip_spans(a@) == strip_spans(b@)),
    decreases a,
{
    match (a, b) {
        (Node::Scalar { value: x, .. }, Node::Scalar { value: y, .. }) => {
            let r = x.eq(y);
            r
        },
        (Node::Sequence { values: xs, span: sx }, Node::Sequence { values: ys, span: sy }) => {
            proof {
                lemma_sequence_view(*xs, *sx);
                lemma_sequence_view(*ys, *sy);
            }
            if xs.len() != ys.len() {
                proof {
                    let sa = strip_spans(a@);
                    let sb = strip_spans(b@);
                    if sa == sb {
                        assert(sa->values.len() == sb->values.len());
                    }
                }
                return false;
            }
            let mut i: usize = 0;
            while i < xs.len()
                invariant
                    xs@.len() == ys@.len(),
                    i <= xs@.len(),
                    forall|j: int|
                        0 <= j < i ==> strip_spans(#[trigger] xs@[j]@) == strip_spans(ys@[j]@),
                decreases xs@.len() - i,
            {
                proof {
                    assert(decreases_to!(*a => *xs));
                    assert(decreases_to!(*xs => xs@));
                    assert(decreases_to!(xs@ => xs@[i as int]));
                }
                if !nodes_equal(&xs[i], &ys[i]) {
                    proof {
                        let sa = strip_spans(a@);
                        let sb = strip_spans(b@);
                        if sa == sb {
                            assert(sa->values[i as int] == sb->values[i as int]);
                        }
                    }
                    return false;
                }
                i += 1;
            }
            proof {
                let sa = strip_spans(a@);
                let sb = strip_spans(b@);
                assert(sa->values =~= sb->values);
            }
            true
        },
        (Node::Mapping { entries: xs, span: sx }, Node::Mapping { entries: ys, span: sy }) => {
            proof {
                lemma_mapping_view(*xs, *sx);
                lemma_mapping_view(*ys, *sy);
            }
            if xs.len() != ys.len() {
                proof {
                    let sa = strip_spans(a@);
                    let sb = strip_spans(b@);
                    if sa == sb {
                        assert(sa->entries.len() == sb->entries.len());
                    }
                }
                return false;
            }
            let mut i: usize = 0;
            while i < xs.len()
                invariant
                    xs@.len() == ys@.len(),
                    i <= xs@.len(),
                    forall|j: int|
                        0 <= j < i ==> (#[trigger] xs@[j]).key@ == ys@[j].key@ && strip_spans(
                            xs@[j].value@,
                        ) == strip_spans(ys@[j].value@),
                decreases xs@.len() - i,
            {
                proof {
                    assert(decreases_to!(*a => *xs));
                    assert(decreases_to!(*xs => xs@));
                    assert(decreases_to!(xs@ => xs@[i as int]));
                    assert(decreases_to!(xs@[i as int] => xs@[i as int].value));
                }
                let same_key = xs[i].key.eq(&ys[i].key);
                if !same_key || !nodes_equal(&xs[i].value, &ys[i].value) {
                    proof {
                        let sa = strip_spans(a@);
                        let sb = strip_spans(b@);
                        if sa == sb {
                            assert(sa->entries[i as int] == sb->entries[i as int]);
                        }
                    }
                    return false;
                }
                i += 1;
            }
            proof {
                let sa = strip_spans(a@);
                let sb = strip_spans(b@);
                assert(sa->entries =~= sb->entries);
            }
            true
        },
        _ => false,
    }
}

impl PartialEq for Node {
    fn eq(&self, other: &Self) -> (r: bool) {
        nodes_equal(self, other)
    }
}

impl vstd::std_specs::cmp::PartialEqSpecImpl for Node {
    open spec fn obeys_eq_spec() -> bool {
        true
    }

    open spec fn eq_spec(&self, other: &Self) -> bool {
        strip_spans(self@) == strip_spans(other@)
    }
}

impl Eq for Node {
}

impl PartialEq for MappingEntry {
    fn eq(&self, other: &Self) -> (r: bool) {
        self.key.eq(&other.key) && nodes_equal(&self.value, &other.value)
    }
}

impl vstd::std_specs::cmp::PartialEqSpecImpl for MappingEntry {
    open spec fn obeys_eq_spec() -> bool {
        true
    }

    open spec fn eq_spec(&self, other: &Self) -> bool {
        self.key@ == other.key@ && strip_spans(self.value@) == strip_spans(other.value@)
    }
}

impl Eq for MappingEntry {
}

impl MappingEntry {
    pub fn new(key: String, value: Node, span: Span) -> (e: Self)
        ensures
            e@ == (EntryModel { key: key@, value: value@, span }),
    {
        MappingEntry { key, value, span }
    }
}

impl Node {
    pub fn scalar(value: &str) -> (n: Self)
        ensures
            n@ == (NodeModel::Scalar { value: value@, span: zero_span() }),
    {
        Node::Scalar { value: string_of(value), span: Span::new(0, 0) }
    }

    pub fn scalar_at(value: String, span: Span) -> (n: Self)
        ensures
            n@ == (NodeModel::Scalar { value: value@, span }),
    {
        Node::Scalar { value, span }
    }

    pub fn sequence(items: Vec<Node>) -> (n: Self)
        ensures
            n@ == (NodeModel::Sequence {
                values: items@.map_values(|x: Node| x@),
                span: zero_span(),
            }),
    {
        Self::sequence_at(items, Span::new(0, 0))
    }

    pub fn sequence_at(items: Vec<Node>, span: Span) -> (n: Self)
        ensures
            n@ == (NodeModel::Sequence { values: items@.map_values(|x: Node| x@), span }),
    {
        proof {
            lemma_sequence_view(items, span);
        }
        Node::Sequence { values: items, span }
    }

    pub fn mapping(entries: Vec<MappingEntry>) -> (n: Self)
        ensures
            n@ == (NodeModel::Mapping {
                entries: entries@.map_values(|e: MappingEntry| e@),
                span: zero_span(),
            }),
    {
        Self::mapping_at(entries, Span::new(0, 0))
    }

    pub fn mapping_at(entries: Vec<MappingEntry>, span: Span) -> (n: Self)
        ensures
            n@ == (NodeModel::Mapping { entries: entries@.map_values(|e: MappingEntry| e@), span }),
    {
        proof {
            lemma_mapping_view(entries, span);
        }
        Node::Mapping { entries, span }
    }

    pub fn span(&self) -> (s: Span)
        ensures
            s == model_span(self@),
    {
        match self {
            Node::Scalar { span, .. } => *span,
            Node::Sequence { span, .. } => *span,
            Node::Mapping { span, .. } => *span,
        }
    }

    pub fn as_scalar(&self) -> (r: Option<&str>)
        ensures
            match self@ {
                NodeModel::Scalar { value, .. } => r is Some && r->0@ == value,
                _ => r is None,
            },
    {
        match self {
            Node::Scalar { value, .. } => Some(value.as_str()),
            _ => None,
        }
    }

    pub fn as_sequence(&self) -> (r: Option<&[Node]>)
        ensures
            match self@ {
                NodeModel::Sequence { values, .. } => r is Some && r->0@.map_values(|x: Node| x@)
                    == values,
                _ => r is None,
            },
    {
        match self {
            Node::Sequence { values, span } => {
                proof {
                    lemma_sequence_view(*values, *span);
                }
                Some(values.as_slice())
            },
            _ => None,
        }
    }

    pub fn as_mapping(&self) -> (r: Option<&[MappingEntry]>)
        ensures
            match self@ {
                NodeModel::Mapping { entries, .. } => r is Some && r->0@.map_values(
                    |e: MappingEntry| e@,
                ) == entries,
                _ => r is None,
            },
    {
        match self {
            Node::Mapping { entries, span } => {
                proof {
                    lemma_mapping_view(*entries, *span);
                }
                Some(entries.as_slice())
            },
            _ => None,
        }
    }

    /// The value of the first entry named `key`, when this is a mapping.
    #[verifier::loop_isolation(false)]
    pub fn mapping_get(&self, key: &str) -> (r: Option<&Node>)
        ensures
            match self@ {
                NodeModel::Mapping { entries, .. } => match first_entry_with_key(entries, key@) {
                    Some(i) => r is Some && r->0@ == entries[i].value,
                    None => r is None,
                },
                _ => r is None,
            },
    {
        match self {
            Node::Mapping { entries, span } => {
                proof {
                    lemma_mapping_view(*entries, *span);
                }
                let ghost ms = entries@.map_values(|e: MappingEntry| e@);
                let mut i: usize = 0;
                while i < entries.len()
                    invariant
                        i <= entries@.len(),
                        ms == entries@.map_values(|e: MappingEntry| e@),
                        forall|j: int| 0 <= j < i ==> ms[j].key != key@,
                    decreases entries@.len() - i,
                {
                    if str_eq(entries[i].key.as_str(), key) {
                        proof {
                            lemma_first_entry_with_key(ms, key@, i as int);
                            assert(ms[i as int] == entries@[i as int]@);
                        }
                        return Some(&entries[i].value);
                    }
                    i += 1;
                }
                None
            },
            _ => None,
        }
    }

    pub fn kind_name(&self) -> (s: &'static str)
        ensures
            s@ == kind_name_of(self@),
    {
        match self {
            Node::Scalar { .. } => "scalar",
            Node::Sequence { .. } => "sequence",
            Node::Mapping { .. } => "mapping",
        }
    }
}

#[derive(Clone, Copy, Debug, PartialEq, Eq, Structural, PartialOrd, Ord, Hash)]
pub enum TopLevelKey {
    Agent,
    System,
    User,
    Memory,
    Tools,
    Output,
    Constraints,
    Vars,
}

/// The keyword of a reserved top-level key.
pub open spec fn key_name(k: TopLevelKey) -> Seq<char> {
    match k {
        TopLevelKey::Agent => "agent"@,
        TopLevelKey::System => "system"@,
        TopLevelKey::User => "user"@,
        TopLevelKey::Memory => "memory"@,
        TopLevelKey::Tools => "tools"@,
        TopLevelKey::Output => "output"@,
        TopLevelKey::Constraints => "constraints"@,
        TopLevelKey::Vars => "vars"@,
    }
}

/// The reserved key named by a keyword.
pub open spec fn keyword_key(s: Seq<char>) -> Option<TopLevelKey> {
    if s == "agent"@ {
        Some(TopLevelKey::Agent)
    } else if s == "system"@ {
        Some(TopLevelKey::System)
    } else if s == "user"@ {
        Some(TopLevelKey::User)
    } else if s == "memory"@ {
        Some(TopLevelKey::Memory)
    } else if s == "tools"@ {
        Some(TopLevelKey::Tools)
    } else if s == "output"@ {
        Some(TopLevelKey::Output)
    } else if s == "constraints"@ {
        Some(TopLevelKey::Constraints)
    } else if s == "vars"@ {
        Some(TopLevelKey::Vars)
    } else {
        None
    }
}

/// The keyword of the composition directive.
pub open spec fn directive_keyword() -> Seq<char> {
    seq!['i', 'n', 'c', 'l', 'u', 'd', 'e']
}

/// Whether `s` is the keyword of the composition directive.
pub fn is_directive_keyword(s: &str) -> (b: bool)
    ensures
        b == (s@ == directive_keyword()),
{
    let cs = crate::text::chars_of(s);
    let b = cs.len() == 7 && cs[0] == 'i' && cs[1] == 'n' && cs[2] == 'c' && cs[3] == 'l' && cs[4]
        == 'u' && cs[5] == 'd' && cs[6] == 'e';
    proof {
        if b {
            assert(cs@ =~= directive_keyword());
        }
    }
    b
}

/// The keyword of the composition directive, as a string.
pub fn directive_keyword_string() -> (r: String)
    ensures
        r@ == directive_keyword(),
{
    let mut r = String::new();
    crate::text::push_char(&mut r, 'i');
    crate::text::push_char(&mut r, 'n');
    crate::text::push_char(&mut r, 'c');
    crate::text::push_char(&mut r, 'l');
    crate::text::push_char(&mut r, 'u');
    crate::text::push_char(&mut r, 'd');
    crate::text::push_char(&mut r, 'e');
    assert(r@ =~= directive_keyword());
    r
}

/// The reserved keys in document order.
pub open spec fn ordered_keys() -> Seq<TopLevelKey> {
    seq![
        TopLevelKey::Agent,
        TopLevelKey::System,
        TopLevelKey::User,
        TopLevelKey::Memory,
        TopLevelKey::Tools,
        TopLevelKey::Output,
        TopLevelKey::Constraints,
        TopLevelKey::Vars,
    ]
}

impl TopLevelKey {
    pub fn as_str(self) -> (s: &'static str)
        ensures
            s@ == key_name(self),
    {
        match self {
            TopLevelKey::Agent => "agent",
            TopLevelKey::System => "system",
            TopLevelKey::User => "user",
            TopLevelKey::Memory => "memory",
            TopLevelKey::Tools => "tools",
            TopLevelKey::Output => "output",
            TopLevelKey::Constraints => "constraints",
            TopLevelKey::Vars => "vars",
        }
    }

    pub fn from_keyword(value: &str) -> (k: Option<Self>)
        ensures
            k == keyword_key(value@),
    {
        if str_eq(value, "agent") {
            Some(TopLevelKey::Agent)
        } else if str_eq(value, "system") {
            Some(TopLevelKey::System)
        } else if str_eq(value, "user") {
            Some(TopLevelKey::User)
        } else if str_eq(value, "memory") {
            Some(TopLevelKey::Memory)
        } else if str_eq(value, "tools") {
            Some(TopLevelKey::Tools)
        } else if str_eq(value, "output") {
            Some(TopLevelKey::Output)
        } else if str_eq(value, "constraints") {
            Some(TopLevelKey::Constraints)
        } else if str_eq(value, "vars") {
            Some(TopLevelKey::Vars)
        } else {
            None
        }
    }

    pub fn ordered() -> (keys: [Self; 8])
        ensures
            keys@ == ordered_keys(),
    {
        let keys = [
            TopLevelKey::Agent,
            TopLevelKey::System,
            TopLevelKey::User,
            TopLevelKey::Memory,
            TopLevelKey::Tools,
            TopLevelKey::Output,
            TopLevelKey::Constraints,
            TopLevelKey::Vars,
        ];
        assert(keys@ =~= ordered_keys());
        keys
    }
}

#[derive(Debug)]
pub struct Document {
    /// Composition directive: resolved before validation and transpilation,
    /// never part of transpiled output.
    pub includes: Option<Node>,
    pub agent: Option<Node>,
    pub system: Option<Node>,
    pub user: Option<Node>,
    pub memory: Option<Node>,
    pub tools: Option<Node>,
    pub output: Option<Node>,
    pub constraints: Option<Node>,
    pub vars: Option<Node>,
}

/// What a document holds.
pub ghost struct DocumentModel {
    pub includes: Option<NodeModel>,
    pub agent: Option<NodeModel>,
    pub system: Option<NodeModel>,
    pub user: Option<NodeModel>,
    pub memory: Option<NodeModel>,
    pub tools: Option<NodeModel>,
    pub output: Option<NodeModel>,
    pub constraints: Option<NodeModel>,
    pub vars: Option<NodeModel>,
}

pub open spec fn opt_model(n: Option<Node>) -> Option<NodeModel> {
    match n {
        Some(x) => Some(x@),
        None => None,
    }
}

impl View for Document {
    type V = DocumentModel;

    open spec fn view(&self) -> DocumentModel {
        DocumentModel {
            includes: opt_model(self.includes),
            agent: opt_model(self.agent),
            system: opt_model(self.system),
            user: opt_model(self.user),
            memory: opt_model(self.memory),
            tools: opt_model(self.tools),
            output: opt_model(self.output),
            constraints: opt_model(self.constraints),
            vars: opt_model(self.vars),
        }
    }
}

pub open spec fn empty_document() -> DocumentModel {
    DocumentModel {
        includes: None,
        agent: None,
        system: None,
        user: None,
        memory: None,
        tools: None,
        output: None,
        constraints: None,
        vars: None,
    }
}

pub open spec fn opt_within_depth(n: Option<NodeModel>) -> bool {
    match n {
        Some(x) => within_depth(x, max_nesting()),
        None => true,
    }
}

/// Whether every block of `d` nests shallowly enough for its indentation to
/// fit in a `usize`.
pub open spec fn document_within_depth(d: DocumentModel) -> bool {
    &&& opt_within_depth(d.includes)
    &&& opt_within_depth(d.agent)
    &&& opt_within_depth(d.system)
    &&& opt_within_depth(d.user)
    &&& opt_within_depth(d.memory)
    &&& opt_within_depth(d.tools)
    &&& opt_within_depth(d.output)
    &&& opt_within_depth(d.constraints)
    &&& opt_within_depth(d.vars)
}

/// Whether `n` nests fewer than `b` blocks deep.
#[verifier::loop_isolation(false)]
pub fn node_nests_within(n: &Node, b: usize) -> (r: bool)
    ensures
        r == within_depth(n@, b as nat),
    decreases n,
{
    match n {
        Node::Scalar { .. } => true,
        Node::Sequence { values, span } => {
            proof {
                lemma_sequence_view(*values, *span);
            }
            if b == 0 {
                return false;
            }
            let ghost vm = values@.map_values(|x: Node| x@);
            let mut i: usize = 0;
            while i < values.len()
                invariant
                    i <= values@.len(),
                    b >= 1,
                    vm == values@.map_values(|x: Node| x@),
                    n@ == (NodeModel::Sequence { values: vm, span: *span }),
                    forall|j: int| 0 <= j < i ==> within_depth(#[trigger] vm[j], (b - 1) as nat),
                decreases values@.len() - i,
            {
                assert(decreases_to!(*n => *values));
                assert(decreases_to!(*values => values@));
                assert(decreases_to!(values@ => values@[i as int]));
                if !node_nests_within(&values[i], b - 1) {
                    proof {
                        if within_depth(n@, b as nat) {
                            lemma_sequence_child_depth(*values, *span, b as nat, i as int);
                        }
                    }
                    return false;
                }
                i += 1;
            }
            true
        },
        Node::Mapping { entries, span } => {
            proof {
                lemma_mapping_view(*entries, *span);
            }
            if b == 0 {
                return false;
            }
            let ghost em = entries@.map_values(|e: MappingEntry| e@);
            let mut i: usize = 0;
            while i < entries.len()
                invariant
                    i <= entries@.len(),
                    b >= 1,
                    em == entries@.map_values(|e: MappingEntry| e@),
                    n@ == (NodeModel::Mapping { entries: em, span: *span }),
                    forall|j: int| 0 <= j < i ==> within_depth(#[trigger] em[j].value, (b - 1) as nat),
                decreases entries@.len() - i,
            {
                assert(decreases_to!(*n => *entries));
                assert(decreases_to!(*entries => entries@));
                assert(decreases_to!(entries@ => entries@[i as int]));
                assert(decreases_to!(entries@[i as int] => entries@[i as int].value));
                if !node_nests_within(&entries[i].value, b - 1) {
                    proof {
                        if within_depth(n@, b as nat) {
                            lemma_mapping_child_depth(*entries, *span, b as nat, i as int);
                        }
                    }
                    return false;
                }
                i += 1;
            }
            true
        },
    }
}

fn slot_nests_within(slot: &Option<Node>) -> (r: bool)
    ensures
        r == opt_within_depth(opt_model(*slot)),
{
    match slot {
        Some(n) => node_nests_within(n, (usize::MAX - 8) / 2),
        None => true,
    }
}

impl Document {
    /// Whether every block of the document nests shallowly enough for its
    /// indentation to fit in a `usize`: what the formatter and the emitters
    /// ask of their input. Documents that `parse_str` returns, and merges of
    /// them, always do.
    pub fn nests_within_limit(&self) -> (r: bool)
        ensures
            r == document_within_depth(self@),
    {
        slot_nests_within(&self.includes) && slot_nests_within(&self.agent) && slot_nests_within(
            &self.system,
        ) && slot_nests_within(&self.user) && slot_nests_within(&self.memory) && slot_nests_within(
            &self.tools,
        ) && slot_nests_within(&self.output) && slot_nests_within(&self.constraints)
            && slot_nests_within(&self.vars)
    }
}

/// The slot of a reserved key.
pub open spec fn field(d: DocumentModel, k: TopLevelKey) -> Option<NodeModel> {
    match k {
        TopLevelKey::Agent => d.agent,
        TopLevelKey::System => d.system,
        TopLevelKey::User => d.user,
        TopLevelKey::Memory => d.memory,
        TopLevelKey::Tools => d.tools,
        TopLevelKey::Output => d.output,
        TopLevelKey::Constraints => d.constraints,
        TopLevelKey::Vars => d.vars,
    }
}

/// The document with the slot of `k` set to `v`.
pub open spec fn with_field(d: DocumentModel, k: TopLevelKey, v: Option<NodeModel>) -> DocumentModel {
    match k {
        TopLevelKey::Agent => DocumentModel { agent: v, ..d },
        TopLevelKey::System => DocumentModel { system: v, ..d },
        TopLevelKey::User => DocumentModel { user: v, ..d },
        TopLevelKey::Memory => DocumentModel { memory: v, ..d },
        TopLevelKey::Tools => DocumentModel { tools: v, ..d },
        TopLevelKey::Output => DocumentModel { output: v, ..d },
        TopLevelKey::Constraints => DocumentModel { constraints: v, ..d },
        TopLevelKey::Vars => DocumentModel { vars: v, ..d },
    }
}

/// The present reserved keys among `keys`, in order, with their values.
pub open spec fn entries_among(d: DocumentModel, keys: Seq<TopLevelKey>) -> Seq<(TopLevelKey, NodeModel)>
    decreases keys.len(),
{
    if keys.len() == 0 {
        Seq::empty()
    } else {
        let front = entries_among(d, keys.drop_last());
        match field(d, keys.last()) {
            Some(n) => front.push((keys.last(), n)),
            None => front,
        }
    }
}

/// The present reserved keys in document order, with their values.
pub open spec fn ordered_entries_of(d: DocumentModel) -> Seq<(TopLevelKey, NodeModel)> {
    entries_among(d, ordered_keys())
}

fn take_field(slot: &mut Option<Node>, value: Node) -> (previous: Option<Node>)
    ensures
        opt_model(*final(slot)) == Some(value@),
        opt_model(previous) == opt_model(*old(slot)),
{
    let previous = slot.take();
    *slot = Some(value);
    previous
}

impl Document {
    pub fn new() -> (d: Self)
        ensures
            d@ == empty_document(),
    {
        Document {
            includes: None,
            agent: None,
            system: None,
            user: None,
            memory: None,
            tools: None,
            output: None,
            constraints: None,
            vars: None,
        }
    }

    /// Stores `value` under `key`, giving back what was stored there before.
    pub fn set(&mut self, key: TopLevelKey, value: Node) -> (previous: Option<Node>)
        ensures
            final(self)@ == with_field(old(self)@, key, Some(value@)),
            opt_model(previous) == field(old(self)@, key),
    {
        match key {
            TopLevelKey::Agent => take_field(&mut self.agent, value),
            TopLevelKey::System => take_field(&mut self.system, value),
            TopLevelKey::User => take_field(&mut self.user, value),
            TopLevelKey::Memory => take_field(&mut self.memory, value),
            TopLevelKey::Tools => take_field(&mut self.tools, value),
            TopLevelKey::Output => take_field(&mut self.output, value),
            TopLevelKey::Constraints => take_field(&mut self.constraints, value),
            TopLevelKey::Vars => take_field(&mut self.vars, value),
        }
    }

    pub fn get(&self, key: TopLevelKey) -> (r: Option<&Node>)
        ensures
            match r {
                Some(n) => field(self@, key) == Some(n@),
                None => field(self@, key) is None,
            },
    {
        match key {
            TopLevelKey::Agent => self.agent.as_ref(),
            TopLevelKey::System => self.system.as_ref(),
            TopLevelKey::User => self.user.as_ref(),
            TopLevelKey::Memory => self.memory.as_ref(),
            TopLevelKey::Tools => self.tools.as_ref(),
            TopLevelKey::Output => self.output.as_ref(),
            TopLevelKey::Constraints => self.constraints.as_ref(),
            TopLevelKey::Vars => self.vars.as_ref(),
        }
    }

    /// The present reserved keys in document order, with their values.
    pub fn ordered_entries(&self) -> (r: Vec<(TopLevelKey, &Node)>)
        ensures
            r@.map_values(|p: (TopLevelKey, &Node)| (p.0, p.1@)) == ordered_entries_of(self@),
    {
        let keys = TopLevelKey::ordered();
        let ghost ks = ordered_keys();
        let mut r: Vec<(TopLevelKey, &Node)> = Vec::new();
        let mut i: usize = 0;
        while i < 8
            invariant
                i <= 8,
                keys@ == ks,
                ks == ordered_keys(),
                r@.map_values(|p: (TopLevelKey, &Node)| (p.0, p.1@)) == entries_among(
                    self@,
                    ks.take(i as int),
                ),
            decreases 8 - i,
        {
            assert(ks.take(i + 1).drop_last() =~= ks.take(i as int));
            let k = keys[i];
            let ghost before = r@.map_values(|p: (TopLevelKey, &Node)| (p.0, p.1@));
            match self.get(k) {
                Some(n) => {
                    r.push((k, n));
                    assert(r@.map_values(|p: (TopLevelKey, &Node)| (p.0, p.1@)) =~= before.push(
                        (k, n@),
                    ));
                },
                None => {},
            }
            i += 1;
        }
        assert(ks.take(8) =~= ks);
        r
    }
}

impl Default for Document {
    fn default() -> (d: Self)
        ensures
            d@ == empty_document(),
    {
        Document::new()
    }
}

fn clone_opt(n: &Option<Node>) -> (r: Option<Node>)
    ensures
        opt_model(r) == opt_model(*n),
{
    match n {
        Some(x) => Some(clone_node(x)),
        None => None,
    }
}

impl Clone for Document {
    fn clone(&self) -> (r: Self)
        ensures
            r@ == self@,
    {
        Document {
            includes: clone_opt(&self.includes),
            agent: clone_opt(&self.agent),
            system: clone_opt(&self.system),
            user: clone_opt(&self.user),
            memory: clone_opt(&self.memory),
            tools: clone_opt(&self.tools),
            output: clone_opt(&self.output),
            constraints: clone_opt(&self.constraints),
            vars: clone_opt(&self.vars),
        }
    }
}

/// A slot's content with every span removed.
pub open spec fn opt_stripped(n: Option<NodeModel>) -> Option<NodeModel> {
    match n {
        Some(x) => Some(strip_spans(x)),
        None => None,
    }
}

/// Two documents are equal when every slot holds the same tree, spans aside.
pub open spec fn documents_equal(a: DocumentModel, b: DocumentModel) -> bool {
    &&& opt_stripped(a.includes) == opt_stripped(b.includes)
    &&& opt_stripped(a.agent) == opt_stripped(b.agent)
    &&& opt_stripped(a.system) == opt_stripped(b.system)
    &&& opt_stripped(a.user) == opt_stripped(b.user)
    &&& opt_stripped(a.memory) == opt_stripped(b.memory)
    &&& opt_stripped(a.tools) == opt_stripped(b.tools)
    &&& opt_stripped(a.output) == opt_stripped(b.output)
    &&& opt_stripped(a.constraints) == opt_stripped(b.constraints)
    &&& opt_stripped(a.vars) == opt_stripped(b.vars)
}

fn slots_equal(a: &Option<Node>, b: &Option<Node>) -> (r: bool)
    ensures
        r == (opt_stripped(opt_model(*a)) == opt_stripped(opt_model(*b))),
{
    match (a, b) {
        (Some(x), Some(y)) => nodes_equal(x, y),
        (None, None) => true,
        _ => false,
    }
}

impl PartialEq for Document {
    fn eq(&self, other: &Self) -> (r: bool) {
        slots_equal(&self.includes, &other.includes) && slots_equal(&self.agent, &other.agent)
            && slots_equal(&self.system, &other.system) && slots_equal(&self.user, &other.user)
            && slots_equal(&self.memory, &other.memory) && slots_equal(&self.tools, &other.tools)
            && slots_equal(&self.output, &other.output) && slots_equal(
            &self.constraints,
            &other.constraints,
        ) && slots_equal(&self.vars, &other.vars)
    }
}

impl vstd::std_specs::cmp::PartialEqSpecImpl for Document {
    open spec fn obeys_eq_spec() -> bool {
        true
    }

    open spec fn eq_spec(&self, other: &Self) -> bool {
        documents_equal(self@, other@)
    }
}

impl Eq for Document {
}

// ---------------------------------------------------------------------------
// Laws.
// ---------------------------------------------------------------------------

/// Storing a value under a key and reading that key gives the value back;
/// every other key keeps what it had.
pub proof fn law_set_then_get(d: DocumentModel, k: TopLevelKey, v: NodeModel, other: TopLevelKey)
    ensures
        field(with_field(d, k, Some(v)), k) == Some(v),
        other != k ==> field(with_field(d, k, Some(v)), other) == field(d, other),
{
}

/// Every reserved key is recognised by its own name.
pub proof fn law_keyword_roundtrip(k: TopLevelKey)
    ensures
        keyword_key(key_name(k)) == Some(k),
{
    reveal_strlit("agent");
    reveal_strlit("system");
    reveal_strlit("user");
    reveal_strlit("memory");
    reveal_strlit("tools");
    reveal_strlit("output");
    reveal_strlit("constraints");
    reveal_strlit("vars");
    match k {
        TopLevelKey::Agent => {

        },
        TopLevelKey::System => {
            assert("system"@.len() != "agent"@.len());
        },
        TopLevelKey::User => {
            assert("user"@.len() != "agent"@.len());
            assert("user"@.len() != "system"@.len());
        },
        TopLevelKey::Memory => {
            assert("memory"@.len() != "agent"@.len());
            assert("memory"@[0] != "system"@[0]);
            assert("memory"@.len() != "user"@.len());
        },
        TopLevelKey::Tools => {
            assert("tools"@[0] != "agent"@[0]);
            assert("tools"@.len() != "system"@.len());
            assert("tools"@.len() != "user"@.len());
            assert("tools"@.len() != "memory"@.len());
        },
        TopLevelKey::Output => {
            assert("output"@.len() != "agent"@.len());
            assert("output"@[0] != "system"@[0]);
            assert("output"@.len() != "user"@.len());
            assert("output"@[0] != "memory"@[0]);
            assert("output"@.len() != "tools"@.len());
        },
        TopLevelKey::Constraints => {
            assert("constraints"@.len() != "agent"@.len());
            assert("constraints"@.len() != "system"@.len());
            assert("constraints"@.len() != "user"@.len());
            assert("constraints"@.len() != "memory"@.len());
            assert("constraints"@.len() != "tools"@.len());
            assert("constraints"@.len() != "output"@.len());
        },
        TopLevelKey::Vars => {
            assert("vars"@.len() != "agent"@.len());
            assert("vars"@.len() != "system"@.len());
            assert("vars"@[0] != "user"@[0]);
            assert("vars"@.len() != "memory"@.len());
            assert("vars"@.len() != "tools"@.len());
            assert("vars"@.len() != "output"@.len());
            assert("vars"@.len() != "constraints"@.len());
        },
    }
}

/// The present reserved keys depend on the reserved slots alone.
pub proof fn lemma_entries_among_fields(d1: DocumentModel, d2: DocumentModel, keys: Seq<TopLevelKey>)
    requires
        forall|k: TopLevelKey| #[trigger] field(d1, k) == field(d2, k),
    ensures
        entries_among(d1, keys) == entries_among(d2, keys),
    decreases keys.len(),
{
    if keys.len() > 0 {
        lemma_entries_among_fields(d1, d2, keys.drop_last());
        assert(field(d1, keys.last()) == field(d2, keys.last()));
    }
}

} // verus!
