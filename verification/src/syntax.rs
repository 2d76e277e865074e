//! The parser that the scan relies on, as far as the library depends on it.
//!
//! Syntax trees come from `syn`. The library never looks inside one: it
//! hands the tree of a file to a rule, and asks a tree node for its debug
//! text. What is said here about `syn` is taken on trust.

use vstd::prelude::*;

verus! {

/// `syn::File`: the syntax tree of one source file. Nothing is known of what
/// it holds.
#[verifier::external_type_specification]
#[verifier::external_body]
pub struct ExFile(syn::File);

/// `syn::Item`: one declaration of a syntax tree. Nothing is known of what
/// it holds.
#[verifier::external_type_specification]
#[verifier::external_body]
pub struct ExItem(syn::Item);

/// `syn::Error`: the diagnostic with which parsing fails. Nothing is known
/// of what it holds.
#[verifier::external_type_specification]
#[verifier::external_body]
pub struct ExParseError(syn::Error);

/// Whether `content` is a well-formed source file in the eyes of
/// `syn::parse_file`. The grammar is that of the parser and is not restated
/// here; only that the answer depends on the text alone.
pub uninterp spec fn parses(content: Seq<char>) -> bool;

/// `syn::parse_file` turns the text of a file into its syntax tree, or
/// fails with a diagnostic. Trusted: whether it succeeds is decided by the
/// text, which is what [`parses`] names. Nothing is claimed about the tree.
///
/// The parser descends into nested syntax by recursion and keeps no count of
/// the depth, so it needs stack in proportion to the nesting of the text.
pub assume_specification[ syn::parse_file ](content: &str) -> (tree: Result<syn::File, syn::Error>)
    ensures
        tree is Ok <==> parses(content@),
;

/// What the debug text of every declaration begins with.
pub const ITEM_MARK: &'static str = "Item::";

/// The text that `impl Debug for syn::Item` writes for `item` when it is
/// formatted with `{:?}`. The text depends on the declaration alone: on its
/// kind and on everything the tree holds below it.
pub uninterp spec fn debug_text(item: syn::Item) -> Seq<char>;

/// The `Debug` rendering of a declaration, on one line, as `syn` writes it
/// with its `extra-traits` feature. Trusted: the text is the one that
/// [`debug_text`] names, and it begins with `Item::`, which `impl Debug for
/// Item` writes before anything else, whatever the kind of declaration.
/// Nothing more is claimed about the text.
#[verifier::external_body]
pub(crate) fn item_debug(item: &syn::Item) -> (text: String)
    ensures
        text@ == debug_text(*item),
        ITEM_MARK@.is_prefix_of(text@),
{
    format!("{:?}", item)
}

} // verus!
