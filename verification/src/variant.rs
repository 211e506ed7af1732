//! The tagged property-value variant: the closed set of value kinds an
//! instance property can hold.

use vstd::prelude::*;

verus! {

/// An instance identifier: an index into the owning tree's arena, unique for
/// the lifetime of the tree and never reused after deletion.
pub type InstanceId = usize;

/// A property value. Numeric components carry the raw 64-bit encoding of
/// their floating-point value; the codec layer converts at the boundary, and
/// the diff engine compares encodings exactly.
#[derive(Debug)]
pub enum Variant {
    /// A boolean value.
    Bool(bool),
    /// A scalar number, as its raw 64-bit encoding.
    Number(u64),
    /// A string value.
    Str(String),
    /// An enumeration item, by its numeric value.
    EnumItem(u32),
    /// A three-component vector, each component as its raw encoding.
    Vector3(u64, u64, u64),
    /// A transform composite: position and orientation components, each as
    /// its raw encoding.
    Transform(Vec<u64>),
    /// A reference to another instance by identifier; `None` is the explicit
    /// unset reference.
    Reference(Option<InstanceId>),
}

/// Value equality for property values: structural, with strings compared by
/// their characters. This is the equality the diff engine works with.
pub open spec fn vareq(a: Variant, b: Variant) -> bool {
    match a {
        Variant::Bool(x) => b matches Variant::Bool(y) && x == y,
        Variant::Number(x) => b matches Variant::Number(y) && x == y,
        Variant::Str(x) => b matches Variant::Str(y) && x@ == y@,
        Variant::EnumItem(x) => b matches Variant::EnumItem(y) && x == y,
        Variant::Vector3(x0, x1, x2) => b matches Variant::Vector3(y0, y1, y2) && x0 == y0 && x1
            == y1 && x2 == y2,
        Variant::Transform(x) => b matches Variant::Transform(y) && x@ == y@,
        Variant::Reference(x) => b matches Variant::Reference(y) && x == y,
    }
}

/// Equality on optional property values, by `vareq`.
pub open spec fn opt_vareq(a: Option<Variant>, b: Option<Variant>) -> bool {
    match (a, b) {
        (Some(x), Some(y)) => vareq(x, y),
        (None, None) => true,
        _ => false,
    }
}

/// Element-wise equality of two component vectors.
fn u64_vec_eq(x: &Vec<u64>, y: &Vec<u64>) -> (r: bool)
    ensures
        r == (x@ == y@),
{
    if x.len() != y.len() {
        return false;
    }
    let mut i: usize = 0;
    while i < x.len()
        invariant
            i <= x@.len(),
            x@.len() == y@.len(),
            forall|j: int| 0 <= j < i ==> x@[j] == y@[j],
        decreases x@.len() - i,
    {
        if x[i] != y[i] {
            return false;
        }
        i = i + 1;
    }
    proof {
        assert(x@ =~= y@);
    }
    true
}

/// A copy of a component vector with the same elements.
fn copy_u64_vec(x: &Vec<u64>) -> (r: Vec<u64>)
    ensures
        r@ == x@,
{
    let mut out: Vec<u64> = Vec::new();
    let mut i: usize = 0;
    while i < x.len()
        invariant
            i <= x@.len(),
            out@.len() == i,
            forall|j: int| 0 <= j < i ==> out@[j] == x@[j],
        decreases x@.len() - i,
    {
        out.push(x[i]);
        i = i + 1;
    }
    proof {
        assert(out@ =~= x@);
    }
    out
}

/// Decides `vareq` on two property values.
pub fn variant_eq(a: &Variant, b: &Variant) -> (r: bool)
    ensures
        r == vareq(*a, *b),
{
    match a {
        Variant::Bool(x) => match b {
            Variant::Bool(y) => *x == *y,
            _ => false,
        },
        Variant::Number(x) => match b {
            Variant::Number(y) => *x == *y,
            _ => false,
        },
        Variant::Str(x) => match b {
            Variant::Str(y) => *x == *y,
            _ => false,
        },
        Variant::EnumItem(x) => match b {
            Variant::EnumItem(y) => *x == *y,
            _ => false,
        },
        Variant::Vector3(x0, x1, x2) => match b {
            Variant::Vector3(y0, y1, y2) => *x0 == *y0 && *x1 == *y1 && *x2 == *y2,
            _ => false,
        },
        Variant::Transform(x) => match b {
            Variant::Transform(y) => u64_vec_eq(x, y),
            _ => false,
        },
        Variant::Reference(x) => match b {
            Variant::Reference(y) => match x {
                Some(p) => match y {
                    Some(q) => *p == *q,
                    None => false,
                },
                None => match y {
                    Some(_) => false,
                    None => true,
                },
            },
            _ => false,
        },
    }
}

impl Variant {
    /// A copy of this value, equal to it under `vareq`.
    pub fn duplicate(&self) -> (r: Variant)
        ensures
            vareq(*self, r),
    {
        match self {
            Variant::Bool(x) => Variant::Bool(*x),
            Variant::Number(x) => Variant::Number(*x),
            Variant::Str(x) => Variant::Str(x.clone()),
            Variant::EnumItem(x) => Variant::EnumItem(*x),
            Variant::Vector3(x0, x1, x2) => Variant::Vector3(*x0, *x1, *x2),
            Variant::Transform(x) => Variant::Transform(copy_u64_vec(x)),
            Variant::Reference(x) => {
                match x {
                    Some(p) => Variant::Reference(Some(*p)),
                    None => Variant::Reference(None),
                }
            },
        }
    }
}

/// `vareq` is symmetric.
pub proof fn lemma_vareq_sym(a: Variant, b: Variant)
    requires
        vareq(a, b),
    ensures
        vareq(b, a),
{
}

/// `vareq` is transitive.
pub proof fn lemma_vareq_trans(a: Variant, b: Variant, c: Variant)
    requires
        vareq(a, b),
        vareq(b, c),
    ensures
        vareq(a, c),
{
}

} // verus!
