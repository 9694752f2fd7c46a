//! The menus as the configuration describes them.

use std::collections::HashMap;
use vstd::prelude::*;

verus! {

/// A JSON value of `serde_json`, carried through as an argument of a menu action. Nothing
/// here looks inside one.
#[verifier::external_type_specification]
#[verifier::external_body]
pub struct ExJsonValue(serde_json::Value);

/// One entry of a menu.
#[derive(Debug)]
pub enum MenuItem {
    /// A line between two groups of entries. It cannot be selected.
    Separator,
    /// An entry that runs `action` with `args`.
    Action { label: String, action: String, args: HashMap<String, serde_json::Value> },
    /// An entry that opens a nested menu.
    Submenu { label: String, items: Vec<MenuItem> },
}

/// A menu of the menu bar.
#[derive(Debug, Clone)]
pub struct Menu {
    pub label: String,
    pub items: Vec<MenuItem>,
}

/// The menus that the configuration gives the menu bar, from left to right.
#[derive(Debug, Clone)]
pub struct MenuConfig {
    pub menus: Vec<Menu>,
}

impl MenuItem {
    /// The two entries are of the same kind and agree in every label, action and argument,
    /// and so do the entries nested below them, one by one.
    pub open spec fn same_entry(&self, other: &Self) -> bool
        decreases self,
    {
        match (self, other) {
            (MenuItem::Separator, MenuItem::Separator) => true,
            (
                MenuItem::Action { label, action, args },
                MenuItem::Action { label: other_label, action: other_action, args: other_args },
            ) => label@ == other_label@ && action@ == other_action@ && args@ == other_args@,
            (
                MenuItem::Submenu { label, items },
                MenuItem::Submenu { label: other_label, items: other_items },
            ) => {
                &&& label@ == other_label@
                &&& items@.len() == other_items@.len()
                &&& forall|j: int|
                    0 <= j < items@.len() ==> (#[trigger] items@[j]).same_entry(&other_items@[j])
            },
            _ => false,
        }
    }

    /// Whether the entry is a separator.
    pub fn is_separator(&self) -> (b: bool)
        ensures
            b == (self is Separator),
    {
        match self {
            MenuItem::Separator => true,
            _ => false,
        }
    }
}

impl Clone for MenuItem {
    /// A copy that is the same entry as `self`.
    fn clone(&self) -> (copy: Self)
        ensures
            self.same_entry(&copy),
        decreases self,
    {
        match self {
            MenuItem::Separator => MenuItem::Separator,
            MenuItem::Action { label, action, args } => MenuItem::Action {
                label: label.clone(),
                action: action.clone(),
                args: args.clone(),
            },
            MenuItem::Submenu { label, items } => {
                let mut copies: Vec<MenuItem> = Vec::new();
                let mut i: usize = 0;
                while i < items.len()
                    invariant
                        i <= items.len(),
                        *self matches MenuItem::Submenu { items: own, .. } && own == items,
                        copies@.len() == i,
                        forall|j: int|
                            0 <= j < i ==> (#[trigger] items@[j]).same_entry(&copies@[j]),
                    decreases items.len() - i,
                {
                    copies.push(items[i].clone());
                    i += 1;
                }
                MenuItem::Submenu { label: label.clone(), items: copies }
            },
        }
    }
}

} // verus!
