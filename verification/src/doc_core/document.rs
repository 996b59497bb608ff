use vstd::prelude::*;

verus! {

/// A document open in the editor.
#[derive(Clone, Debug)]
pub struct Document {
    pub title: String,
}

impl Default for Document {
    /// A document titled "Untitled".
    fn default() -> (d: Self)
        ensures
            d.title@ == "Untitled"@,
    {
        Self { title: "Untitled".to_string() }
    }
}

} // verus!
