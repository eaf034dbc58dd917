use vstd::prelude::*;

verus! {

/// Options for formatting.
#[derive(Clone, Copy, Debug)]
pub struct FormattingOptions {
    /// Sort the entries of attribute sets by their keys.
    pub sort_attrs: bool,
    /// Sort the inputs of a flake into categories.
    pub sort_flake: bool,
    /// When sorting, keep an entry named `self` first.
    pub keep_self_first: bool,
}

impl Default for FormattingOptions {
    fn default() -> (r: Self)
        ensures
            !r.sort_attrs,
            !r.sort_flake,
            r.keep_self_first,
    {
        FormattingOptions { sort_attrs: false, sort_flake: false, keep_self_first: true }
    }
}

} // verus!
