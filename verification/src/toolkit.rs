//! The toolkit's types that the selector carries for its rendering.

use vstd::prelude::*;

verus! {

/// `egui::Id`: the identity of a widget. Nothing is claimed of what a value
/// holds; the selector only stores it and hands it on.
#[verifier::external_type_specification]
#[verifier::external_body]
pub struct ExId(egui::Id);

/// `egui::TextWrapMode`: how the toolkit wraps text. Nothing is claimed of
/// what a value holds; the selector only stores it and hands it on.
#[verifier::external_type_specification]
#[verifier::external_body]
pub struct ExTextWrapMode(egui::TextWrapMode);

/// Calls `egui::Id::new` on `source`. The toolkit hashes the text into an
/// identity; which identity comes out is not claimed here.
#[verifier::external_body]
pub(crate) fn id_of(source: &str) -> (r: egui::Id) {
    egui::Id::new(source)
}

} // verus!
