use vstd::prelude::*;

verus! {

/// A value that can render itself as a JSON string. The rendering itself is
/// the serialization sink's concern; nothing in this library implements it.
#[allow(non_camel_case_types)]
pub trait serializable {
    /// Render the item as a JSON string.
    fn serialize(&self) -> &'static str;
}

} // verus!
