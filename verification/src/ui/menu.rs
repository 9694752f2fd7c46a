//! The menu bar: which menu is open, which entry is highlighted, and where things go.

use crate::config::{Menu, MenuConfig, MenuItem};
use std::collections::HashMap;
use vstd::arithmetic::div_mod::{
    lemma_add_mod_noop_right, lemma_fundamental_div_mod, lemma_mod_add_multiples_vanish,
    lemma_small_mod, lemma_sub_mod_noop_right,
};
use vstd::prelude::*;
use vstd::string::{StrSliceExecFns, StringExecFns};

verus! {

/// Menu bar state: which menu is open and which of its entries is highlighted.
#[derive(Debug, Clone)]
pub struct MenuState {
    /// Index of the open menu; `None` while the menu bar is closed.
    pub active_menu: Option<usize>,
    /// Index of the highlighted entry within the open menu.
    pub highlighted_item: Option<usize>,
    /// Menus that plugins added at run time; they follow the configured ones.
    pub plugin_menus: Vec<Menu>,
}

impl Default for MenuState {
    fn default() -> (state: Self)
        ensures
            state.active_menu is None,
            state.highlighted_item is None,
            state.plugin_menus@.len() == 0,
    {
        MenuState { active_menu: None, highlighted_item: None, plugin_menus: Vec::new() }
    }
}

/// Whether a walk over `items` that set out from `start` halts at `pos`: at an entry that
/// is no separator, or back where it set out.
pub open spec fn halts_at(items: Seq<MenuItem>, start: int, pos: int) -> bool {
    !(items[pos] is Separator) || pos == start
}

/// The position `k` steps after `start` in a ring of `n` positions.
pub open spec fn forward(start: int, k: int, n: int) -> int {
    (start + k) % n
}

/// The position `k` steps before `start` in a ring of `n` positions.
pub open spec fn backward(start: int, k: int, n: int) -> int {
    (start - k) % n
}

/// A walk down the menu from `start` halts after exactly `k` steps, going round from the
/// last entry to the first: not before, and no later.
pub open spec fn halts_after(items: Seq<MenuItem>, start: int, k: int) -> bool {
    let n = items.len() as int;
    &&& 1 <= k <= n
    &&& halts_at(items, start, forward(start, k, n))
    &&& forall|j: int| 1 <= j < k ==> !halts_at(items, start, #[trigger] forward(start, j, n))
}

/// A walk up the menu from `start` halts after exactly `k` steps, going round from the
/// first entry to the last: not before, and no later.
pub open spec fn halts_before(items: Seq<MenuItem>, start: int, k: int) -> bool {
    let n = items.len() as int;
    &&& 1 <= k <= n
    &&& halts_at(items, start, backward(start, k, n))
    &&& forall|j: int| 1 <= j < k ==> !halts_at(items, start, #[trigger] backward(start, j, n))
}

/// `found` is where a walk down the menu from `start` halts.
pub open spec fn is_next_stop(items: Seq<MenuItem>, start: int, found: int) -> bool {
    exists|k: int|
        #[trigger] halts_after(items, start, k) && found == forward(start, k, items.len() as int)
}

/// `found` is where a walk up the menu from `start` halts.
pub open spec fn is_prev_stop(items: Seq<MenuItem>, start: int, found: int) -> bool {
    exists|k: int|
        #[trigger] halts_before(items, start, k) && found == backward(
            start,
            k,
            items.len() as int,
        )
}

/// Whether a walk over `items` from `start` comes to a halt: the menu has an entry, and
/// `start` is a position of the menu or some entry is no separator.
pub open spec fn walk_halts(items: Seq<MenuItem>, start: int) -> bool {
    &&& items.len() > 0
    &&& (start < items.len() || exists|p: int|
        0 <= p < items.len() && !((#[trigger] items[p]) is Separator))
}

/// A walk down the menu halts at one place only.
pub proof fn lemma_next_stop_is_one(items: Seq<MenuItem>, start: int, found: int, other: int)
    requires
        is_next_stop(items, start, found),
        is_next_stop(items, start, other),
    ensures
        found == other,
{
    let n = items.len() as int;
    let k = choose|k: int| #[trigger] halts_after(items, start, k) && found == forward(start, k, n);
    let j = choose|j: int| #[trigger] halts_after(items, start, j) && other == forward(start, j, n);
    if k < j {
        assert(!halts_at(items, start, forward(start, k, n)));
    }
    if j < k {
        assert(!halts_at(items, start, forward(start, j, n)));
    }
}

/// A walk up the menu halts at one place only.
pub proof fn lemma_prev_stop_is_one(items: Seq<MenuItem>, start: int, found: int, other: int)
    requires
        is_prev_stop(items, start, found),
        is_prev_stop(items, start, other),
    ensures
        found == other,
{
    let n = items.len() as int;
    let k = choose|k: int|
        #[trigger] halts_before(items, start, k) && found == backward(start, k, n);
    let j = choose|j: int|
        #[trigger] halts_before(items, start, j) && other == backward(start, j, n);
    if k < j {
        assert(!halts_at(items, start, backward(start, k, n)));
    }
    if j < k {
        assert(!halts_at(items, start, backward(start, j, n)));
    }
}

impl MenuState {
    /// A closed menu bar without plugin menus.
    pub fn new() -> (state: Self)
        ensures
            state.active_menu is None,
            state.highlighted_item is None,
            state.plugin_menus@.len() == 0,
    {
        Self::default()
    }

    /// Opens the menu at `index` and highlights its first entry.
    pub fn open_menu(&mut self, index: usize)
        ensures
            final(self).active_menu == Some(index),
            final(self).highlighted_item == Some(0usize),
            final(self).plugin_menus == old(self).plugin_menus,
    {
        self.active_menu = Some(index);
        self.highlighted_item = Some(0);
    }

    /// Closes the open menu, if any.
    pub fn close_menu(&mut self)
        ensures
            final(self).active_menu is None,
            final(self).highlighted_item is None,
            final(self).plugin_menus == old(self).plugin_menus,
    {
        self.active_menu = None;
        self.highlighted_item = None;
    }

    /// Moves to the menu on the right, going round from the last to the first, and
    /// highlights its first entry. Does nothing while the menu bar is closed.
    pub fn next_menu(&mut self, total_menus: usize)
        requires
            old(self).active_menu is Some ==> total_menus > 0,
        ensures
            final(self).plugin_menus == old(self).plugin_menus,
            match old(self).active_menu {
                Some(active) => {
                    &&& final(self).active_menu == Some(
                        ((active + 1) % (total_menus as int)) as usize,
                    )
                    &&& final(self).highlighted_item == Some(0usize)
                },
                None => {
                    &&& final(self).active_menu is None
                    &&& final(self).highlighted_item == old(self).highlighted_item
                },
            },
    {
        if let Some(active) = self.active_menu {
            proof {
                lemma_step_forward(active as int, total_menus as int);
            }
            self.active_menu = Some((active % total_menus + 1) % total_menus);
            self.highlighted_item = Some(0);
        }
    }

    /// Moves to the menu on the left, going round from the first to the last, and
    /// highlights its first entry. Does nothing while the menu bar is closed.
    pub fn prev_menu(&mut self, total_menus: usize)
        requires
            old(self).active_menu is Some ==> total_menus > 0,
        ensures
            final(self).plugin_menus == old(self).plugin_menus,
            match old(self).active_menu {
                Some(active) => {
                    &&& final(self).active_menu == Some(
                        ((active + total_menus - 1) % (total_menus as int)) as usize,
                    )
                    &&& final(self).highlighted_item == Some(0usize)
                },
                None => {
                    &&& final(self).active_menu is None
                    &&& final(self).highlighted_item == old(self).highlighted_item
                },
            },
    {
        if let Some(active) = self.active_menu {
            proof {
                lemma_step_back(active as int, total_menus as int);
            }
            let at: usize = active % total_menus;
            let prev: usize = if at == 0 {
                total_menus - 1
            } else {
                at - 1
            };
            self.active_menu = Some(prev);
            self.highlighted_item = Some(0);
        }
    }

    /// Moves the highlight down to the next entry that is no separator, going round from
    /// the last entry to the first. Where every other entry is a separator the highlight
    /// comes back to where it was. Does nothing while no entry is highlighted.
    pub fn next_item(&mut self, menu: &Menu)
        requires
            old(self).highlighted_item matches Some(idx) ==> walk_halts(menu.items@, idx as int),
        ensures
            final(self).active_menu == old(self).active_menu,
            final(self).plugin_menus == old(self).plugin_menus,
            match old(self).highlighted_item {
                Some(idx) => {
                    &&& final(self).highlighted_item matches Some(next)
                    &&& next < menu.items@.len()
                    &&& is_next_stop(menu.items@, idx as int, next as int)
                },
                None => final(self).highlighted_item is None,
            },
    {
        if let Some(idx) = self.highlighted_item {
            let total: usize = menu.items.len();
            let ghost items = menu.items@;
            let ghost n = total as int;
            let ghost mut k: int = 1;
            proof {
                lemma_step_forward(idx as int, n);
            }
            let mut next: usize = (idx % total + 1) % total;
            while menu.items[next].is_separator() && next != idx
                invariant
                    total == menu.items.len(),
                    items == menu.items@,
                    n == total,
                    walk_halts(items, idx as int),
                    1 <= k <= n,
                    next == forward(idx as int, k, n),
                    next < total,
                    forall|j: int|
                        1 <= j < k ==> !halts_at(
                            items,
                            idx as int,
                            #[trigger] forward(idx as int, j, n),
                        ),
                decreases n - k,
            {
                proof {
                    lemma_step_forward(idx as int + k, n);
                    if k == n {
                        if idx < total {
                            lemma_mod_add_multiples_vanish(idx as int, n);
                            lemma_small_mod(idx as nat, n as nat);
                        } else {
                            let p = choose|p: int|
                                0 <= p < items.len() && !((#[trigger] items[p]) is Separator);
                            let reach = lemma_reached_forwards(idx as int, p, n);
                            assert(forward(idx as int, reach, n) == p);
                        }
                    }
                }
                proof {
                    lemma_step_forward(next as int, n);
                    lemma_small_mod(next as nat, n as nat);
                }
                next = (next + 1) % total;
                proof {
                    k = k + 1;
                }
            }
            proof {
                assert(halts_after(items, idx as int, k));
            }
            self.highlighted_item = Some(next);
        }
    }

    /// Moves the highlight up to the next entry that is no separator, going round from
    /// the first entry to the last. Where every other entry is a separator the highlight
    /// comes back to where it was. Does nothing while no entry is highlighted.
    pub fn prev_item(&mut self, menu: &Menu)
        requires
            old(self).highlighted_item matches Some(idx) ==> walk_halts(menu.items@, idx as int),
        ensures
            final(self).active_menu == old(self).active_menu,
            final(self).plugin_menus == old(self).plugin_menus,
            match old(self).highlighted_item {
                Some(idx) => {
                    &&& final(self).highlighted_item matches Some(prev)
                    &&& prev < menu.items@.len()
                    &&& is_prev_stop(menu.items@, idx as int, prev as int)
                },
                None => final(self).highlighted_item is None,
            },
    {
        if let Some(idx) = self.highlighted_item {
            let total: usize = menu.items.len();
            let ghost items = menu.items@;
            let ghost n = total as int;
            let ghost mut k: int = 1;
            proof {
                lemma_step_back(idx as int, n);
            }
            let at: usize = idx % total;
            let mut prev: usize = if at == 0 {
                total - 1
            } else {
                at - 1
            };
            while menu.items[prev].is_separator() && prev != idx
                invariant
                    total == menu.items.len(),
                    items == menu.items@,
                    n == total,
                    walk_halts(items, idx as int),
                    1 <= k <= n,
                    prev == backward(idx as int, k, n),
                    prev < total,
                    forall|j: int|
                        1 <= j < k ==> !halts_at(
                            items,
                            idx as int,
                            #[trigger] backward(idx as int, j, n),
                        ),
                decreases n - k,
            {
                proof {
                    lemma_step_back(idx as int - k, n);
                    if k == n {
                        if idx < total {
                            lemma_mod_add_multiples_vanish(idx as int - n, n);
                            lemma_small_mod(idx as nat, n as nat);
                        } else {
                            let p = choose|p: int|
                                0 <= p < items.len() && !((#[trigger] items[p]) is Separator);
                            let reach = lemma_reached_backwards(idx as int, p, n);
                            assert(backward(idx as int, reach, n) == p);
                        }
                    }
                }
                prev = if prev == 0 {
                    total - 1
                } else {
                    prev - 1
                };
                proof {
                    k = k + 1;
                }
            }
            proof {
                assert(halts_before(items, idx as int, k));
            }
            self.highlighted_item = Some(prev);
        }
    }

    /// The entry under the highlight: the highlighted entry of the open menu, where a menu
    /// is open, an entry is highlighted, and both indices lie within `menus`.
    pub open spec fn highlighted_entry(&self, menus: Seq<Menu>) -> Option<MenuItem> {
        match (self.active_menu, self.highlighted_item) {
            (Some(active), Some(highlighted)) => if active < menus.len() && highlighted
                < menus[active as int].items@.len() {
                Some(menus[active as int].items@[highlighted as int])
            } else {
                None
            },
            _ => None,
        }
    }

    /// The action under the highlight with its arguments, where the highlighted entry is
    /// an action.
    pub fn get_highlighted_action(&self, menus: &[Menu]) -> (found: Option<
        (String, HashMap<String, serde_json::Value>),
    >)
        ensures
            match found {
                Some((name, arguments)) => {
                    &&& self.highlighted_entry(menus@) matches Some(
                        MenuItem::Action { action, args, .. },
                    )
                    &&& name@ == action@
                    &&& arguments@ == args@
                },
                None => !(self.highlighted_entry(menus@) matches Some(MenuItem::Action { .. })),
            },
    {
        let active_menu = match self.active_menu {
            Some(active) => active,
            None => {
                return None;
            },
        };
        let highlighted_item = match self.highlighted_item {
            Some(highlighted) => highlighted,
            None => {
                return None;
            },
        };
        if active_menu >= menus.len() {
            return None;
        }
        let menu = &menus[active_menu];
        if highlighted_item >= menu.items.len() {
            return None;
        }
        match &menu.items[highlighted_item] {
            MenuItem::Action { action, args, .. } => Some((action.clone(), args.clone())),
            _ => None,
        }
    }
}

/// One step round a ring of `n` positions: forwards from `x % n` is `(x + 1) % n`.
proof fn lemma_step_forward(x: int, n: int)
    requires
        n > 0,
    ensures
        0 <= x % n < n,
        (x + 1) % n == (x % n + 1) % n,
        (x + 1) % n == if x % n + 1 == n {
            0
        } else {
            x % n + 1
        },
{
    lemma_add_mod_noop_right(1, x, n);
    lemma_fundamental_div_mod(x, n);
    assert((1 + x % n) % n == (x % n + 1) % n);
    assert((1 + x) % n == (x + 1) % n);
    if x % n + 1 == n {
        lemma_mod_add_multiples_vanish(0, n);
        lemma_small_mod(0, n as nat);
    } else {
        lemma_small_mod((x % n + 1) as nat, n as nat);
    }
}

/// One step round a ring of `n` positions: backwards from `x % n` is `(x - 1) % n`.
proof fn lemma_step_back(x: int, n: int)
    requires
        n > 0,
    ensures
        0 <= x % n < n,
        (x - 1) % n == if x % n == 0 {
            n - 1
        } else {
            x % n - 1
        },
        (x + n - 1) % n == (x - 1) % n,
{
    lemma_add_mod_noop_right(-1, x, n);
    lemma_fundamental_div_mod(x, n);
    lemma_mod_add_multiples_vanish(x - 1, n);
    if x % n == 0 {
        lemma_mod_add_multiples_vanish(-1, n);
        lemma_small_mod((n - 1) as nat, n as nat);
    } else {
        lemma_small_mod((x % n - 1) as nat, n as nat);
    }
}

/// Every position of a ring of `n` is reached from `start` in at least one and at most `n`
/// steps forwards.
proof fn lemma_reached_forwards(start: int, p: int, n: int) -> (k: int)
    requires
        n > 0,
        0 <= p < n,
    ensures
        1 <= k <= n,
        (start + k) % n == p,
{
    let d = (p - start) % n;
    lemma_fundamental_div_mod(p - start, n);
    lemma_add_mod_noop_right(start, p - start, n);
    lemma_small_mod(p as nat, n as nat);
    if d == 0 {
        lemma_mod_add_multiples_vanish(start, n);
        n
    } else {
        d
    }
}

/// Every position of a ring of `n` is reached from `start` in at least one and at most `n`
/// steps backwards.
proof fn lemma_reached_backwards(start: int, p: int, n: int) -> (k: int)
    requires
        n > 0,
        0 <= p < n,
    ensures
        1 <= k <= n,
        (start - k) % n == p,
{
    let d = (start - p) % n;
    lemma_fundamental_div_mod(start - p, n);
    lemma_sub_mod_noop_right(start, start - p, n);
    lemma_small_mod(p as nat, n as nat);
    if d == 0 {
        lemma_mod_add_multiples_vanish(start - n, n);
        n
    } else {
        d
    }
}

/// A rectangle of the screen, in cells.
#[derive(Debug, Clone, Copy, PartialEq, Eq, Structural)]
pub struct Area {
    pub x: u16,
    pub y: u16,
    pub width: u16,
    pub height: u16,
}

/// What a piece of text of the menu bar is, which decides how it is drawn.
#[derive(Debug, Clone, Copy, PartialEq, Eq, Structural)]
pub enum TextRole {
    /// The label of a menu that is not open.
    Label,
    /// The label of the open menu.
    ActiveLabel,
    /// The blank between two labels.
    Gap,
    /// An entry of a dropdown that is not highlighted.
    Entry,
    /// The highlighted entry of a dropdown.
    HighlightedEntry,
    /// A separator line of a dropdown.
    Separator,
}

/// A piece of text of the menu bar or of a dropdown, with its role.
#[derive(Debug, Clone)]
pub struct StyledText {
    pub text: String,
    pub role: TextRole,
}

/// The number of bytes that `text` takes in UTF-8.
pub open spec fn byte_len(text: Seq<char>) -> int {
    vstd::utf8::encode_utf8(text).len() as int
}

/// `count` times the character `c`.
pub open spec fn run_of(c: char, count: int) -> Seq<char> {
    Seq::new(
        if count > 0 {
            count as nat
        } else {
            0
        },
        |i: int| c,
    )
}

/// `label` followed by as many spaces as it lacks to be `width` characters long.
pub open spec fn padded(label: Seq<char>, width: int) -> Seq<char> {
    label + run_of(' ', width - label.len())
}

/// The cells that the labels of the first `count` menus take in the bar: each label takes
/// its length in bytes and three more.
pub open spec fn offset_before(menus: Seq<&Menu>, count: int) -> int
    decreases count,
{
    if count <= 0 {
        0
    } else {
        offset_before(menus, count - 1) + byte_len(menus[count - 1].label@) + 3
    }
}

/// The width that an entry asks of its dropdown: twenty cells, and for an entry with a
/// label the length of the label in bytes on top.
pub open spec fn entry_width(item: MenuItem) -> int {
    match item {
        MenuItem::Action { label, .. } => byte_len(label@) + 20,
        MenuItem::Submenu { label, .. } => byte_len(label@) + 20,
        MenuItem::Separator => 20,
    }
}

/// The smaller of `x` and `limit`.
pub open spec fn at_most(x: int, limit: int) -> int {
    if x < limit {
        x
    } else {
        limit
    }
}

/// The text of a label in the menu bar: the label between two spaces.
pub open spec fn bar_text(label: Seq<char>) -> Seq<char> {
    seq![' '] + label + seq![' ']
}

/// The text of an entry in a dropdown that is `width` cells wide.
pub open spec fn entry_text(item: MenuItem, width: int) -> Seq<char> {
    match item {
        MenuItem::Action { label, .. } => seq![' '] + padded(label@, width - 2),
        MenuItem::Separator => seq![' '] + run_of('\u{2500}', width - 2),
        MenuItem::Submenu { label, .. } => seq![' '] + padded(label@, width - 4) + seq![
            ' ',
            '\u{25b6}',
        ],
    }
}

/// The role of an entry in a dropdown.
pub open spec fn entry_role(item: MenuItem, highlighted: bool) -> TextRole {
    if item is Separator {
        TextRole::Separator
    } else if highlighted {
        TextRole::HighlightedEntry
    } else {
        TextRole::Entry
    }
}

/// What is taken off the width of a dropdown to get the width that an entry's label is
/// filled up to: two cells, and for a submenu two more for its marker.
pub open spec fn entry_margin(item: MenuItem) -> int {
    if item is Submenu {
        4
    } else {
        2
    }
}

/// The role of the label of the menu at `index` in the bar.
pub open spec fn label_role(index: int, active_menu: Option<usize>) -> TextRole {
    if active_menu == Some(index as usize) {
        TextRole::ActiveLabel
    } else {
        TextRole::Label
    }
}

/// Appends `count` times the one character of `unit` to `text`.
fn append_run(text: &mut String, unit: &str, count: usize)
    requires
        unit@.len() == 1,
    ensures
        final(text)@ == old(text)@ + run_of(unit@[0], count as int),
{
    let mut done: usize = 0;
    while done < count
        invariant
            done <= count,
            unit@.len() == 1,
            text@ == old(text)@ + run_of(unit@[0], done as int),
        decreases count - done,
    {
        text.append(unit);
        done += 1;
        assert(text@ =~= old(text)@ + run_of(unit@[0], done as int));
    }
    assert(text@ =~= old(text)@ + run_of(unit@[0], count as int));
}

/// Appends `label` to `text`, and then spaces until `width` characters were appended.
fn append_padded(text: &mut String, label: &str, width: usize)
    ensures
        final(text)@ == old(text)@ + padded(label@, width as int),
{
    proof {
        reveal_strlit(" ");
    }
    text.append(label);
    let have: usize = label.unicode_len();
    let missing: usize = if have < width {
        width - have
    } else {
        0
    };
    append_run(text, " ", missing);
    assert(text@ =~= old(text)@ + padded(label@, width as int));
}

/// Works out what the menu bar shows and where; drawing it is left to the caller.
pub struct MenuRenderer;

impl MenuRenderer {
    /// The menus of the bar from left to right: the configured ones, then those that
    /// plugins added.
    pub fn all_menus<'m>(menu_config: &'m MenuConfig, menu_state: &'m MenuState) -> (all: Vec<
        &'m Menu,
    >)
        ensures
            all@.len() == menu_config.menus@.len() + menu_state.plugin_menus@.len(),
            forall|i: int|
                0 <= i < all@.len() ==> *(#[trigger] all@[i]) == (menu_config.menus@
                    + menu_state.plugin_menus@)[i],
    {
        let mut all: Vec<&'m Menu> = Vec::new();
        let mut i: usize = 0;
        while i < menu_config.menus.len()
            invariant
                i <= menu_config.menus@.len(),
                all@.len() == i,
                forall|j: int| 0 <= j < i ==> *(#[trigger] all@[j]) == menu_config.menus@[j],
            decreases menu_config.menus@.len() - i,
        {
            all.push(&menu_config.menus[i]);
            i += 1;
        }
        let mut k: usize = 0;
        while k < menu_state.plugin_menus.len()
            invariant
                k <= menu_state.plugin_menus@.len(),
                all@.len() == menu_config.menus@.len() + k,
                forall|j: int|
                    0 <= j < all@.len() ==> *(#[trigger] all@[j]) == (menu_config.menus@
                        + menu_state.plugin_menus@)[j],
            decreases menu_state.plugin_menus@.len() - k,
        {
            all.push(&menu_state.plugin_menus[k]);
            k += 1;
        }
        all
    }

    /// The pieces of the menu bar from left to right, two for each menu: its label between
    /// two spaces, and a blank that parts it from the next.
    pub fn bar_spans(all_menus: &[&Menu], active_menu: Option<usize>) -> (spans: Vec<StyledText>)
        ensures
            spans@.len() == 2 * all_menus@.len(),
            forall|i: int|
                0 <= i < all_menus@.len() ==> {
                    &&& (#[trigger] spans@[2 * i]).text@ == bar_text(all_menus@[i].label@)
                    &&& spans@[2 * i].role == label_role(i, active_menu)
                    &&& spans@[2 * i + 1].text@ == seq![' ']
                    &&& spans@[2 * i + 1].role == TextRole::Gap
                },
    {
        proof {
            reveal_strlit(" ");
        }
        let mut spans: Vec<StyledText> = Vec::new();
        let mut idx: usize = 0;
        while idx < all_menus.len()
            invariant
                idx <= all_menus@.len(),
                spans@.len() == 2 * idx,
                " "@ == seq![' '],
                forall|i: int|
                    0 <= i < idx ==> {
                        &&& (#[trigger] spans@[2 * i]).text@ == bar_text(all_menus@[i].label@)
                        &&& spans@[2 * i].role == label_role(i, active_menu)
                        &&& spans@[2 * i + 1].text@ == seq![' ']
                        &&& spans@[2 * i + 1].role == TextRole::Gap
                    },
            decreases all_menus@.len() - idx,
        {
            let is_active = match active_menu {
                Some(active) => active == idx,
                None => false,
            };
            let mut text = String::from_str(" ");
            text.append(all_menus[idx].label.as_str());
            text.append(" ");
            let role = if is_active {
                TextRole::ActiveLabel
            } else {
                TextRole::Label
            };
            spans.push(StyledText { text, role });
            spans.push(StyledText { text: String::from_str(" "), role: TextRole::Gap });
            idx += 1;
        }
        spans
    }

    /// How far right of the bar's left edge the dropdown of the menu at `menu_index`
    /// starts: the cells that the labels before it take. `None` where that number does not
    /// fit a `usize`.
    pub fn dropdown_offset(all_menus: &[&Menu], menu_index: usize) -> (x_offset: Option<usize>)
        ensures
            match x_offset {
                Some(cells) => cells == offset_before(
                    all_menus@,
                    at_most(menu_index as int, all_menus@.len() as int),
                ),
                None => offset_before(
                    all_menus@,
                    at_most(menu_index as int, all_menus@.len() as int),
                ) > usize::MAX,
            },
    {
        let stop: usize = if menu_index < all_menus.len() {
            menu_index
        } else {
            all_menus.len()
        };
        let mut x_offset: usize = 0;
        let mut idx: usize = 0;
        while idx < stop
            invariant
                idx <= stop <= all_menus@.len(),
                stop == at_most(menu_index as int, all_menus@.len() as int),
                x_offset == offset_before(all_menus@, idx as int),
            decreases stop - idx,
        {
            let label_len: usize = all_menus[idx].label.as_str().as_bytes().len();
            proof {
                lemma_offset_grows(all_menus@, idx as int + 1, stop as int);
                assert(offset_before(all_menus@, idx as int + 1) == x_offset + label_len + 3);
            }
            let taken = match label_len.checked_add(3) {
                Some(taken) => taken,
                None => {
                    return None;
                },
            };
            x_offset = match x_offset.checked_add(taken) {
                Some(sum) => sum,
                None => {
                    return None;
                },
            };
            idx += 1;
        }
        Some(x_offset)
    }

    /// The width of the dropdown of `menu`: what its widest entry asks for, at least
    /// twenty cells and at most forty.
    pub fn dropdown_width(menu: &Menu) -> (max_width: usize)
        ensures
            20 <= max_width <= 40,
            forall|i: int|
                0 <= i < menu.items@.len() ==> at_most(
                    entry_width(#[trigger] menu.items@[i]),
                    40,
                ) <= max_width,
            max_width == 20 || exists|i: int|
                0 <= i < menu.items@.len() && max_width == at_most(
                    entry_width(#[trigger] menu.items@[i]),
                    40,
                ),
    {
        let mut max_width: usize = 20;
        let mut idx: usize = 0;
        while idx < menu.items.len()
            invariant
                idx <= menu.items@.len(),
                20 <= max_width <= 40,
                forall|i: int|
                    0 <= i < idx ==> at_most(entry_width(#[trigger] menu.items@[i]), 40)
                        <= max_width,
                max_width == 20 || exists|i: int|
                    0 <= i < idx && max_width == at_most(
                        entry_width(#[trigger] menu.items@[i]),
                        40,
                    ),
            decreases menu.items@.len() - idx,
        {
            let label_len: usize = match &menu.items[idx] {
                MenuItem::Action { label, .. } => label.as_str().as_bytes().len(),
                MenuItem::Submenu { label, .. } => label.as_str().as_bytes().len(),
                MenuItem::Separator => 0,
            };
            let wanted: usize = if label_len < 20 {
                label_len + 20
            } else {
                40
            };
            assert(wanted == at_most(entry_width(menu.items@[idx as int]), 40));
            if wanted > max_width {
                max_width = wanted;
            }
            idx += 1;
        }
        max_width
    }

    /// Where the dropdown goes: one row below the bar, `x_offset` cells right of the bar's
    /// left edge, `max_width` cells wide and two rows higher than the menu has entries, for
    /// the border. A number that does not fit sixteen bits is cut down to its low sixteen
    /// bits before it is used. `None` where the dropdown would start beyond the last
    /// column or row that sixteen bits can name.
    pub fn dropdown_area(
        menu_bar_area: Area,
        menu: &Menu,
        x_offset: usize,
        max_width: usize,
    ) -> (area: Option<Area>)
        ensures
            match area {
                Some(area) => {
                    &&& area.x == menu_bar_area.x + x_offset % 0x1_0000
                    &&& area.y == menu_bar_area.y + 1
                    &&& area.width == max_width % 0x1_0000
                    &&& area.height == (menu.items@.len() + 2) % 0x1_0000
                },
                None => menu_bar_area.x + x_offset % 0x1_0000 > u16::MAX || menu_bar_area.y + 1
                    > u16::MAX,
            },
    {
        let entries: usize = menu.items.len() % 0x1_0000;
        let x = match menu_bar_area.x.checked_add((x_offset % 0x1_0000) as u16) {
            Some(x) => x,
            None => {
                return None;
            },
        };
        let y = match menu_bar_area.y.checked_add(1) {
            Some(y) => y,
            None => {
                return None;
            },
        };
        Some(
            Area {
                x,
                y,
                width: (max_width % 0x1_0000) as u16,
                height: ((entries + 2) % 0x1_0000) as u16,
            },
        )
    }

    /// The lines of the dropdown of `menu`, one for each entry from top to bottom, for a
    /// dropdown `max_width` cells wide. A label is filled up with blanks, never cut. The
    /// width has to leave room for each entry's margin.
    pub fn dropdown_lines(menu: &Menu, highlighted_item: Option<usize>, max_width: usize) -> (lines:
        Vec<StyledText>)
        requires
            forall|i: int|
                0 <= i < menu.items@.len() ==> max_width >= entry_margin(#[trigger] menu.items@[i]),
        ensures
            lines@.len() == menu.items@.len(),
            forall|i: int|
                0 <= i < lines@.len() ==> {
                    &&& (#[trigger] lines@[i]).text@ == entry_text(menu.items@[i], max_width as int)
                    &&& lines@[i].role == entry_role(
                        menu.items@[i],
                        highlighted_item == Some(i as usize),
                    )
                },
    {
        proof {
            reveal_strlit(" ");
            reveal_strlit(" \u{25b6}");
            reveal_strlit("\u{2500}");
        }
        let mut lines: Vec<StyledText> = Vec::new();
        let mut idx: usize = 0;
        while idx < menu.items.len()
            invariant
                idx <= menu.items@.len(),
                forall|i: int|
                    0 <= i < menu.items@.len() ==> max_width >= entry_margin(
                        #[trigger] menu.items@[i],
                    ),
                lines@.len() == idx,
                " "@ == seq![' '],
                " \u{25b6}"@ == seq![' ', '\u{25b6}'],
                "\u{2500}"@ == seq!['\u{2500}'],
                forall|i: int|
                    0 <= i < idx ==> {
                        &&& (#[trigger] lines@[i]).text@ == entry_text(
                            menu.items@[i],
                            max_width as int,
                        )
                        &&& lines@[i].role == entry_role(
                            menu.items@[i],
                            highlighted_item == Some(i as usize),
                        )
                    },
            decreases menu.items@.len() - idx,
        {
            let is_highlighted = match highlighted_item {
                Some(highlighted) => highlighted == idx,
                None => false,
            };
            let selectable = if is_highlighted {
                TextRole::HighlightedEntry
            } else {
                TextRole::Entry
            };
            assert(max_width >= entry_margin(menu.items@[idx as int]));
            let mut text = String::from_str(" ");
            let role = match &menu.items[idx] {
                MenuItem::Action { label, .. } => {
                    append_padded(&mut text, label.as_str(), max_width - 2);
                    selectable
                },
                MenuItem::Separator => {
                    append_run(&mut text, "\u{2500}", max_width - 2);
                    TextRole::Separator
                },
                MenuItem::Submenu { label, .. } => {
                    append_padded(&mut text, label.as_str(), max_width - 4);
                    text.append(" \u{25b6}");
                    selectable
                },
            };
            lines.push(StyledText { text, role });
            idx += 1;
        }
        lines
    }
}

/// The cells that labels take grow with the number of labels counted.
proof fn lemma_offset_grows(menus: Seq<&Menu>, fewer: int, more: int)
    requires
        fewer <= more,
    ensures
        offset_before(menus, fewer) <= offset_before(menus, more),
    decreases more - fewer,
{
    if fewer < more {
        lemma_offset_grows(menus, fewer, more - 1);
    }
}

} // verus!
