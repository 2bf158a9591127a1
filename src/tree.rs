//! The tree that is walked, and the description of a node's position in it.

use vstd::prelude::*;
use vstd::string::StringSliceAdditionalSpecFns;

verus! {

#[verifier::external_type_specification]
#[verifier::external_body]
pub struct ExNumber(serde_json::Number);

/// A node of a JSON-like tree. Arrays and objects hold children; the other
/// variants are leaves. An object keeps its entries in insertion order; its
/// names are meant to be unique (`distinct_keys`), though the walk does not
/// rely on it.
#[derive(Debug, PartialEq)]
pub enum Value {
    Null,
    Bool(bool),
    Number(serde_json::Number),
    String(String),
    Array(Vec<Value>),
    Object(Vec<(String, Value)>),
}

/// One hop from a node to one of its children, or the mark of the root.
#[derive(Clone, Copy, Debug, Eq)]
pub enum Key<'a> {
    /// The position of the node where the walk starts: it has no step.
    Root,
    /// The position of an element of an array.
    Index(usize),
    /// The key of an entry of an object.
    Prop(&'a str),
}

/// The mathematical form of a `Key`.
pub enum KeyView {
    Root,
    Index(nat),
    Prop(Seq<char>),
}

impl<'a> View for Key<'a> {
    type V = KeyView;

    open spec fn view(&self) -> KeyView {
        match *self {
            Key::Root => KeyView::Root,
            Key::Index(i) => KeyView::Index(i as nat),
            Key::Prop(s) => KeyView::Prop(s@),
        }
    }
}

/// The position of a node: its own key and, unless it is the root, the
/// position of its parent. The chain of `parent` links ends at the root.
/// Two positions are equal when their own keys are: `==` does not walk the
/// chain.
#[derive(Clone, Copy, Debug, Eq)]
pub struct Parent<'a> {
    pub key: Key<'a>,
    pub parent: Option<&'a Parent<'a>>,
}

/// Whether two texts hold the same characters, decided on their UTF-8 bytes.
fn same_text(a: &str, b: &str) -> (r: bool)
    ensures
        r == (a@ == b@),
{
    let x = a.as_bytes();
    let y = b.as_bytes();
    if x.len() != y.len() {
        return false;
    }
    let mut i: usize = 0;
    while i < x.len()
        invariant
            x@ == a.spec_bytes(),
            y@ == b.spec_bytes(),
            x@.len() == y@.len(),
            i <= x@.len(),
            forall|j: int| 0 <= j < i ==> x@[j] == y@[j],
        decreases x@.len() - i,
    {
        if x[i] != y[i] {
            return false;
        }
        i += 1;
    }
    proof {
        assert(x@ =~= y@);
        vstd::utf8::encode_utf8_decode_utf8(a@);
        vstd::utf8::encode_utf8_decode_utf8(b@);
    }
    true
}

impl<'a> PartialEq for Key<'a> {
    fn eq(&self, other: &Key<'a>) -> (r: bool) {
        match (self, other) {
            (Key::Root, Key::Root) => true,
            (Key::Index(i), Key::Index(j)) => *i == *j,
            (Key::Prop(p), Key::Prop(q)) => same_text(p, q),
            _ => false,
        }
    }
}

impl<'a> vstd::std_specs::cmp::PartialEqSpecImpl for Key<'a> {
    open spec fn obeys_eq_spec() -> bool {
        true
    }

    open spec fn eq_spec(&self, other: &Key<'a>) -> bool {
        self@ == other@
    }
}

impl<'a> PartialEq for Parent<'a> {
    fn eq(&self, other: &Parent<'a>) -> (r: bool) {
        self.key == other.key
    }
}

impl<'a> vstd::std_specs::cmp::PartialEqSpecImpl for Parent<'a> {
    open spec fn obeys_eq_spec() -> bool {
        true
    }

    open spec fn eq_spec(&self, other: &Parent<'a>) -> bool {
        self.key@ == other.key@
    }
}

impl<'a> Parent<'a> {
    /// The keys from the start of the chain down to this position.
    pub open spec fn path(&self) -> Seq<KeyView>
        decreases *self,
    {
        match self.parent {
            None => seq![self.key@],
            Some(p) => p.path().push(self.key@),
        }
    }

    /// Whether this is the position of the node where the walk starts.
    pub fn is_root(&self) -> (r: bool)
        ensures
            r == (self.parent is None && self.key is Root),
    {
        self.parent.is_none() && matches!(self.key, Key::Root)
    }
}

/// The children of a node, each with the key that leads to it, in the order
/// in which they are walked: by ascending index in an array, in entry order
/// in an object. A leaf has none.
pub open spec fn children(v: Value) -> Seq<(KeyView, Value)> {
    match v {
        Value::Array(items) => Seq::new(
            items@.len(),
            |i: int| (KeyView::Index(i as nat), items@[i]),
        ),
        Value::Object(entries) => Seq::new(
            entries@.len(),
            |i: int| (KeyView::Prop(entries@[i].0@), entries@[i].1),
        ),
        _ => seq![],
    }
}

/// `r` is `a` where at most the children's values differ: the same variant,
/// the same keys in the same order, and for a leaf the same value.
pub open spec fn same_frame(a: Value, r: Value) -> bool {
    match a {
        Value::Array(_) => r is Array && children(r).len() == children(a).len(),
        Value::Object(_) => r is Object && children(r).len() == children(a).len() && forall|i: int|
            0 <= i < children(a).len() ==> #[trigger] children(r)[i].0 == children(a)[i].0,
        _ => r == a,
    }
}

/// No two children of `v` are reached by the same key: an object's names are
/// unique. Array indices always are.
pub open spec fn distinct_keys(v: Value) -> bool {
    forall|i: int, j: int|
        0 <= i < j < children(v).len() ==> #[trigger] children(v)[i].0 != #[trigger] children(
            v,
        )[j].0
}

} // verus!
