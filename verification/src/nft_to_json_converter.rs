//! Display projections of tokens, for read-only consumers.

use vstd::prelude::*;
use crate::locked_token::LockedToken;

verus! {

/// Descriptive metadata of an item, as the external registry reports it:
/// plain optional fields, carried through for display only.
pub struct TokenMetadata {
    /// Item title.
    pub title: Option<String>,
    /// Free-form description.
    pub description: Option<String>,
    /// Media reference, typically a URL.
    pub media: Option<String>,
    /// Number of copies of this item in existence.
    pub copies: Option<u64>,
    /// Anything else the registry attached.
    pub extra: Option<String>,
}

/// An item as shown to display consumers: identity, holder, metadata and
/// the approvals the registry reported.
pub struct JsonToken {
    /// Unique identifier of the item.
    pub token_id: String,
    /// Account that owns the item on the registry's books.
    pub owner_id: String,
    /// Descriptive metadata.
    pub metadata: TokenMetadata,
    /// Accounts approved to move the item, with their approval numbers.
    pub approved_account_ids: Vec<(String, u64)>,
}

/// A collateral record paired with its display projection.
pub struct JsonLockedToken {
    /// The item as the registry describes it.
    pub json_token: JsonToken,
    /// The market's own collateral record.
    pub locked_token: LockedToken,
}

/// Projection of an item to its display form, when one is available.
pub trait NonFungibleTokenToJsonConverter {
    /// The display form of the item `token_id`, if the implementor can
    /// produce one.
    fn nft_maybe_to_json(&self, token_id: String) -> Option<JsonToken>;
}

impl NonFungibleTokenToJsonConverter for crate::Contract {
    /// The market itself holds no registry metadata, so it never produces a
    /// display form.
    fn nft_maybe_to_json(&self, token_id: String) -> (r: Option<JsonToken>)
        ensures
            r is None,
    {
        None
    }
}

} // verus!
