//! Core identity, value and schema types: entity identifiers, typed values,
//! attribute flags, transaction-scoped placeholders, and the schema lookup the
//! upsert-resolution engine consults.

use vstd::prelude::*;
use crate::assoc::{assoc_map, distinct_keys, lemma_assoc_map_domain, lemma_assoc_map_entry,
    lemma_assoc_map_push};

verus! {

/// A permanent entity or attribute identifier.  The identifier space is
/// signed 64-bit; partitions carve it into disjoint, monotonic ranges.
pub type Entid = i64;

/// The value types an attribute can constrain its values to.
#[derive(Clone, Copy, Debug, Hash, PartialEq, Eq, Structural)]
pub enum ValueType {
    Ref,
    Boolean,
    Instant,
    Long,
    Double,
    String,
    Keyword,
}

/// A concrete value in the value place of an assertion.
#[derive(Debug)]
pub enum TypedValue {
    Ref(Entid),
    Boolean(bool),
    Long(i64),
    String(String),
    Keyword(String),
}

/// The mathematical shape of a [`TypedValue`]: strings appear as their
/// character sequences, so that equal contents mean equal values.
pub enum TypedValueView {
    Ref(Entid),
    Boolean(bool),
    Long(i64),
    String(Seq<char>),
    Keyword(Seq<char>),
}

impl View for TypedValue {
    type V = TypedValueView;

    open spec fn view(&self) -> TypedValueView {
        match self {
            TypedValue::Ref(e) => TypedValueView::Ref(*e),
            TypedValue::Boolean(b) => TypedValueView::Boolean(*b),
            TypedValue::Long(n) => TypedValueView::Long(*n),
            TypedValue::String(s) => TypedValueView::String(s@),
            TypedValue::Keyword(s) => TypedValueView::Keyword(s@),
        }
    }
}

/// The `ValueType` a value inhabits.
pub open spec fn value_type_of(v: TypedValueView) -> ValueType {
    match v {
        TypedValueView::Ref(_) => ValueType::Ref,
        TypedValueView::Boolean(_) => ValueType::Boolean,
        TypedValueView::Long(_) => ValueType::Long,
        TypedValueView::String(_) => ValueType::String,
        TypedValueView::Keyword(_) => ValueType::Keyword,
    }
}

impl TypedValue {
    pub fn value_type(&self) -> (t: ValueType)
        ensures
            t == value_type_of(self@),
    {
        match self {
            TypedValue::Ref(_) => ValueType::Ref,
            TypedValue::Boolean(_) => ValueType::Boolean,
            TypedValue::Long(_) => ValueType::Long,
            TypedValue::String(_) => ValueType::String,
            TypedValue::Keyword(_) => ValueType::Keyword,
        }
    }
}

impl Clone for TypedValue {
    fn clone(&self) -> (res: Self)
        ensures
            res == *self,
    {
        match self {
            TypedValue::Ref(e) => TypedValue::Ref(*e),
            TypedValue::Boolean(b) => TypedValue::Boolean(*b),
            TypedValue::Long(n) => TypedValue::Long(*n),
            TypedValue::String(s) => TypedValue::String(s.clone()),
            TypedValue::Keyword(s) => TypedValue::Keyword(s.clone()),
        }
    }
}

impl PartialEq for TypedValue {
    fn eq(&self, other: &Self) -> bool {
        match self {
            TypedValue::Ref(a) => match other {
                TypedValue::Ref(b) => a == b,
                _ => false,
            },
            TypedValue::Boolean(a) => match other {
                TypedValue::Boolean(b) => a == b,
                _ => false,
            },
            TypedValue::Long(a) => match other {
                TypedValue::Long(b) => a == b,
                _ => false,
            },
            TypedValue::String(a) => match other {
                TypedValue::String(b) => a.eq(b),
                _ => false,
            },
            TypedValue::Keyword(a) => match other {
                TypedValue::Keyword(b) => a.eq(b),
                _ => false,
            },
        }
    }
}

impl vstd::std_specs::cmp::PartialEqSpecImpl for TypedValue {
    open spec fn obeys_eq_spec() -> bool {
        true
    }

    open spec fn eq_spec(&self, other: &Self) -> bool {
        self@ == other@
    }
}

/// A transaction-scoped placeholder naming an entity that has no permanent
/// identifier yet.
#[derive(Debug)]
pub struct TempId(pub String);

impl View for TempId {
    type V = Seq<char>;

    open spec fn view(&self) -> Seq<char> {
        self.0@
    }
}

impl Clone for TempId {
    fn clone(&self) -> (res: Self)
        ensures
            res == *self,
    {
        TempId(self.0.clone())
    }
}

impl PartialEq for TempId {
    fn eq(&self, other: &Self) -> bool {
        self.0.eq(&other.0)
    }
}

impl vstd::std_specs::cmp::PartialEqSpecImpl for TempId {
    open spec fn obeys_eq_spec() -> bool {
        true
    }

    open spec fn eq_spec(&self, other: &Self) -> bool {
        self@ == other@
    }
}

/// A pair `[a v]`: the natural key that resolves a unique-identity upsert to
/// a pre-existing entity.
pub type AVPair = (Entid, TypedValue);

/// A schema attribute: a value type together with the flags that determine
/// how assertions with this attribute are interpreted.  Only
/// `unique_identity` matters to upsert resolution.
#[derive(Clone, Copy, Debug, Hash, PartialEq, Eq, Structural)]
pub struct Attribute {
    /// The associated value type.
    pub value_type: ValueType,
    /// `true` if this attribute is multi-valued.
    pub multival: bool,
    /// `true` if at most one assertion may pair this attribute with a given
    /// value.
    pub unique_value: bool,
    /// `true` if this attribute is unique-identity: unique-value, and usable
    /// for lookups and automatic upserts.
    pub unique_identity: bool,
    /// `true` if this attribute is automatically indexed.
    pub index: bool,
    /// `true` if this attribute is automatically fulltext indexed.
    pub fulltext: bool,
    /// `true` if this attribute is a component attribute.
    pub component: bool,
}

impl Default for Attribute {
    fn default() -> (d: Attribute)
        ensures
            d == (Attribute {
                value_type: ValueType::Ref,
                multival: false,
                unique_value: false,
                unique_identity: false,
                index: false,
                fulltext: false,
                component: false,
            }),
    {
        Attribute {
            // There's no particular reason to favour one value type, so Ref it is.
            value_type: ValueType::Ref,
            multival: false,
            unique_value: false,
            unique_identity: false,
            index: false,
            fulltext: false,
            component: false,
        }
    }
}

/// The schema snapshot the engine consults: a map from attribute id to
/// [`Attribute`], built once and then only read.
pub struct Schema {
    attribute_map: Vec<(Entid, Attribute)>,
}

impl View for Schema {
    type V = Map<Entid, Attribute>;

    closed spec fn view(&self) -> Map<Entid, Attribute> {
        assoc_map(self.attribute_map@)
    }
}

impl Schema {
    /// The entries carry pairwise-distinct attribute ids.
    pub closed spec fn wf(self) -> bool {
        distinct_keys(self.attribute_map@)
    }

    pub fn new() -> (s: Schema)
        ensures
            s@ == Map::<Entid, Attribute>::empty(),
            s.wf(),
    {
        Schema { attribute_map: Vec::new() }
    }

    /// Record the attribute with the given id.
    pub fn define_attribute(&mut self, entid: Entid, attribute: Attribute)
        requires
            old(self).wf(),
            !old(self)@.contains_key(entid),
        ensures
            final(self)@ == old(self)@.insert(entid, attribute),
            final(self).wf(),
    {
        proof {
            lemma_assoc_map_push(self.attribute_map@, entid, attribute);
        }
        self.attribute_map.push((entid, attribute));
    }

    /// Look the attribute with the given id up, if the schema knows it.
    pub fn attribute_for_entid(&self, entid: Entid) -> (r: Option<Attribute>)
        requires
            self.wf(),
        ensures
            r == if self@.contains_key(entid) {
                Some(self@[entid])
            } else {
                None::<Attribute>
            },
    {
        proof {
            lemma_assoc_map_domain(self.attribute_map@);
        }
        let n = self.attribute_map.len();
        let mut i: usize = 0;
        while i < n
            invariant
                n == self.attribute_map@.len(),
                i <= n,
                self.wf(),
                forall|j: int| 0 <= j < i ==> self.attribute_map@[j].0 != entid,
            decreases n - i,
        {
            if self.attribute_map[i].0 == entid {
                proof {
                    lemma_assoc_map_entry(self.attribute_map@, i as int);
                }
                return Some(self.attribute_map[i].1);
            }
            i += 1;
        }
        proof {
            lemma_assoc_map_domain(self.attribute_map@);
        }
        None
    }
}

} // verus!
