//! Identifiers of players and cards.

use vstd::prelude::*;

verus! {

/// Players and cards are identified by a `uuid::Uuid`.
#[verifier::external_type_specification]
#[verifier::external_body]
pub struct ExUuid(uuid::Uuid);

/// `<uuid::Uuid as Clone>::clone`: `Uuid` derives `Clone` and `Copy`, so a
/// clone is the same value.
pub assume_specification[ <uuid::Uuid as Clone>::clone ](u: &uuid::Uuid) -> (r: uuid::Uuid)
    ensures
        r == *u,
;

/// The identifier of a player.
pub type PlayerId = uuid::Uuid;

/// The identifier of a card.
pub type CardId = uuid::Uuid;

/// Compares two identifiers.
///
/// Calls `<uuid::Uuid as PartialEq>::eq`. `Uuid` derives `PartialEq` over its
/// sixteen bytes, so two identifiers compare equal exactly when they are the
/// same value.
#[verifier::external_body]
pub fn same_id(a: &uuid::Uuid, b: &uuid::Uuid) -> (r: bool)
    ensures
        r == (*a == *b),
{
    a == b
}


/// The text that `uuid::Uuid`'s `Debug` gives for an identifier.
pub uninterp spec fn uuid_debug_text(u: uuid::Uuid) -> Seq<char>;

/// An identifier as its `Debug` form writes it.
///
/// Formats with `<uuid::Uuid as Debug>::fmt` (`format!("{:?}", ..)`), which
/// writes the hyphenated lower-case form; the text depends on the
/// identifier alone and is named `uuid_debug_text`.
#[verifier::external_body]
pub fn uuid_debug_string(u: &uuid::Uuid) -> (r: String)
    ensures
        r@ == uuid_debug_text(*u),
{
    format!("{:?}", u)
}

/// The text that `uuid::Uuid`'s `Display` gives for an identifier.
pub uninterp spec fn uuid_display_text(u: uuid::Uuid) -> Seq<char>;

/// An identifier as its `Display` form writes it.
///
/// Formats with `<uuid::Uuid as Display>::fmt` (`format!("{}", ..)`), which
/// writes the hyphenated lower-case form; the text depends on the
/// identifier alone and is named `uuid_display_text`.
#[verifier::external_body]
pub fn uuid_display_string(u: &uuid::Uuid) -> (r: String)
    ensures
        r@ == uuid_display_text(*u),
{
    format!("{}", u)
}

} // verus!
