//! The choices of the interactive prompt.

use vstd::prelude::*;

verus! {

/// What the prompt does for the entry the user picked.
#[derive(PartialEq, Eq, Structural, Debug, Clone, Copy)]
pub enum MenuChoice {
    ListPosts,
    ListUsers,
    SearchReddit,
    /// No entry, or one the menu does not offer.
    Nothing,
}

/// The action for the entry picked, counting from 0 in the order
/// "List all posts", "List all users", "Search and store reddit posts".
pub fn menu_choice(selection: Option<usize>) -> (r: MenuChoice)
    ensures
        r == match selection {
            Some(0) => MenuChoice::ListPosts,
            Some(1) => MenuChoice::ListUsers,
            Some(2) => MenuChoice::SearchReddit,
            _ => MenuChoice::Nothing,
        },
{
    match selection {
        Some(0) => MenuChoice::ListPosts,
        Some(1) => MenuChoice::ListUsers,
        Some(2) => MenuChoice::SearchReddit,
        _ => MenuChoice::Nothing,
    }
}

} // verus!
