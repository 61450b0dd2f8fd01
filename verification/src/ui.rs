use vstd::prelude::*;

use crate::platform_layer::{matching_items, search_item, Item, ItemModel};

verus! {

/// The models of a list of items.
pub open spec fn models(items: Seq<Item>) -> Seq<ItemModel> {
    items.map_values(|i: Item| i@)
}

/// Searching lists with the same models gives lists with the same models.
pub proof fn lemma_matching_models(a: Seq<Item>, b: Seq<Item>, pattern: Seq<char>)
    requires
        models(a) == models(b),
    ensures
        models(matching_items(a, pattern)) == models(matching_items(b, pattern)),
    decreases a.len(),
{
    assert(a.len() == models(a).len() && b.len() == models(b).len());
    if a.len() > 0 {
        assert(models(a.drop_last()) =~= models(a).drop_last());
        assert(models(b.drop_last()) =~= models(b).drop_last());
        lemma_matching_models(a.drop_last(), b.drop_last(), pattern);
        assert(models(a)[a.len() - 1] == models(b)[b.len() - 1]);
        let ra = matching_items(a.drop_last(), pattern);
        let rb = matching_items(b.drop_last(), pattern);
        assert(models(ra.push(a.last())) =~= models(ra).push(a.last()@));
        assert(models(rb.push(b.last())) =~= models(rb).push(b.last()@));
    }
}

/// The highlight after moving down in a list of `len` items: positions run
/// from 1 to `len`, 0 meaning none, and moving down from the last wraps to none.
pub open spec fn highlight_down(h: u32, len: nat) -> u32 {
    if h + 1 > len {
        (h + 1 - (len + 1)) as u32
    } else {
        (h + 1) as u32
    }
}

/// The highlight after moving up: up from none wraps to the last item.
pub open spec fn highlight_up(h: u32, len: nat) -> u32 {
    if h == 0 {
        len as u32
    } else {
        (h - 1) as u32
    }
}

/// The keys pressed during one frame that the launcher reacts to.
#[derive(Clone, Copy, Debug)]
pub struct KeyPresses {
    pub enter: bool,
    pub tab: bool,
    pub arrow_down: bool,
    pub arrow_up: bool,
    pub escape: bool,
}

/// What the frame's keys ask of the window: the position in the search
/// results of the item to launch, and whether to close.
#[derive(Debug)]
pub struct KeyOutcome {
    pub launch: Option<usize>,
    pub close: bool,
}

/// The launcher window's state: every item, the search pattern, the items
/// that match it, and the highlighted position among them (1-based, 0 for none).
#[derive(Debug)]
pub struct AppState {
    pub name: String,
    pub highlighted: u32,
    pub search_pattern: String,
    pub items: Vec<Item>,
    pub searched_list: Vec<Item>,
}

impl AppState {
    /// The state's invariant: the search results are those of the pattern,
    /// and the positions fit the 32-bit highlight counter.
    pub open spec fn wf(&self) -> bool {
        &&& models(self.searched_list@) == models(
            matching_items(self.items@, self.search_pattern@),
        )
        &&& self.items@.len() < u32::MAX
        &&& self.searched_list@.len() < u32::MAX
        &&& self.highlighted < u32::MAX
    }

    /// The window's state when it opens on `items`: nothing searched,
    /// everything listed, nothing highlighted.
    pub fn new(items: Vec<Item>) -> (r: Self)
        requires
            items@.len() < u32::MAX,
        ensures
            r.wf(),
            r.name@ == "launch app"@,
            r.highlighted == 0,
            r.search_pattern@.len() == 0,
            r.items@ == items@,
            models(r.searched_list@) == models(items@),
    {
        let searched_list = items.clone();
        let r = AppState {
            name: String::from_str("launch app"),
            highlighted: 0,
            search_pattern: String::new(),
            items,
            searched_list,
        };
        assert(models(r.searched_list@) =~= models(r.items@)) by {
            assert forall|k: int| 0 <= k < r.items@.len() implies models(r.searched_list@)[k]
                == models(r.items@)[k] by {
                assert(cloned::<Item>(r.items@[k], r.searched_list@[k]));
            }
        }
        proof {
            lemma_matching_everything(r.items@, r.search_pattern@);
        }
        r
    }

    /// The search pattern was edited to `pattern`: the results are searched anew.
    pub fn search_changed(&mut self, pattern: String)
        requires
            old(self).wf(),
        ensures
            final(self).wf(),
            final(self).search_pattern == pattern,
            final(self).items@ == old(self).items@,
            final(self).highlighted == old(self).highlighted,
            final(self).name == old(self).name,
    {
        let all = self.items.clone();
        proof {
            assert(models(all@) =~= models(self.items@)) by {
                assert forall|k: int| 0 <= k < all@.len() implies models(all@)[k] == models(
                    self.items@,
                )[k] by {
                    assert(cloned::<Item>(self.items@[k], all@[k]));
                }
            }
            lemma_matching_models(all@, self.items@, pattern@);
            lemma_matching_len(all@, pattern@);
        }
        self.searched_list = search_item(all, pattern.clone());
        self.search_pattern = pattern;
    }

    /// The item at `position` (1-based) of the results was drawn, and was
    /// clicked or hovered: it becomes the highlighted one; a click asks for
    /// it to be launched and the window closed.
    pub fn item_shown(&mut self, position: u32, clicked: bool, hovered: bool) -> (launch: bool)
        requires
            old(self).wf(),
            1 <= position <= old(self).searched_list@.len(),
        ensures
            final(self).wf(),
            launch == clicked,
            final(self).highlighted == (if clicked || hovered {
                position
            } else {
                old(self).highlighted
            }),
            final(self).items == old(self).items,
            final(self).searched_list == old(self).searched_list,
            final(self).search_pattern == old(self).search_pattern,
            final(self).name == old(self).name,
    {
        if hovered {
            self.highlighted = position;
        }
        if clicked {
            self.highlighted = position;
        }
        clicked
    }

    /// The keys of one frame, in the order the window handles them: Enter
    /// asks to launch the highlighted item (the first when none is) and to
    /// close; Tab or Down moves the highlight down; Up moves it up; Escape
    /// asks to close.
    pub fn keys_pressed(&mut self, keys: KeyPresses) -> (r: KeyOutcome)
        requires
            old(self).wf(),
        ensures
            final(self).wf(),
            r.launch == (if keys.enter {
                Some((if old(self).highlighted == 0 {
                    0
                } else {
                    old(self).highlighted - 1
                }) as usize)
            } else {
                None::<usize>
            }),
            r.close == (keys.enter || keys.escape),
            final(self).highlighted == ({
                let len: nat = old(self).searched_list@.len();
                let h1: u32 = if keys.tab || keys.arrow_down {
                    highlight_down(old(self).highlighted, len)
                } else {
                    old(self).highlighted
                };
                if keys.arrow_up {
                    highlight_up(h1, len)
                } else {
                    h1
                }
            }),
            final(self).items == old(self).items,
            final(self).searched_list == old(self).searched_list,
            final(self).search_pattern == old(self).search_pattern,
            final(self).name == old(self).name,
    {
        let mut launch: Option<usize> = None;
        let mut close = false;
        let len: usize = self.searched_list.len();
        if keys.enter {
            let idx: u32 = if self.highlighted == 0 {
                0
            } else {
                self.highlighted - 1
            };
            launch = Some(idx as usize);
            close = true;
        }
        if keys.tab || keys.arrow_down {
            self.highlighted = self.highlighted + 1;
            if self.highlighted as usize > len {
                self.highlighted = self.highlighted - (len + 1) as u32;
            }
        }
        if keys.arrow_up {
            if self.highlighted == 0 {
                self.highlighted = len as u32;
            } else {
                self.highlighted = self.highlighted - 1;
            }
        }
        if keys.escape {
            close = true;
        }
        KeyOutcome { launch, close }
    }
}

/// Searching with the empty pattern keeps every item.
pub proof fn lemma_matching_everything(items: Seq<Item>, pattern: Seq<char>)
    requires
        pattern.len() == 0,
    ensures
        matching_items(items, pattern) == items,
    decreases items.len(),
{
    if items.len() > 0 {
        lemma_matching_everything(items.drop_last(), pattern);
        assert(items.last().name@.take(0) =~= pattern);
        assert(items.drop_last().push(items.last()) =~= items);
    }
}

/// The results of a search are no more than the items searched.
pub proof fn lemma_matching_len(items: Seq<Item>, pattern: Seq<char>)
    ensures
        matching_items(items, pattern).len() <= items.len(),
    decreases items.len(),
{
    if items.len() > 0 {
        lemma_matching_len(items.drop_last(), pattern);
    }
}


/// Moving the highlight keeps it among the positions of the list (or none),
/// and moving down then up, or up then down, comes back to where it was.
pub proof fn lemma_highlight_moves(h: u32, len: nat)
    requires
        h <= len,
        len < u32::MAX,
    ensures
        highlight_down(h, len) <= len,
        highlight_up(h, len) <= len,
        highlight_up(highlight_down(h, len), len) == h,
        highlight_down(highlight_up(h, len), len) == h,
{
}

/// `n` moves of the highlight down.
pub open spec fn highlight_down_n(h: u32, len: nat, n: nat) -> u32
    decreases n,
{
    if n == 0 {
        h
    } else {
        highlight_down(highlight_down_n(h, len, (n - 1) as nat), len)
    }
}

/// Moving down through the whole list, `len + 1` times counting the
/// position of no highlight, comes back to where it began.
pub proof fn lemma_highlight_cycle(h: u32, len: nat)
    requires
        h <= len,
        len < u32::MAX,
    ensures
        highlight_down_n(h, len, len + 1) == h,
{
    assert forall|n: nat| n <= len + 1 implies #[trigger] highlight_down_n(h, len, n) == (if h + n
        <= len {
        h + n
    } else {
        h + n - (len + 1)
    }) by {
        lemma_highlight_down_n(h, len, n);
    }
}

proof fn lemma_highlight_down_n(h: u32, len: nat, n: nat)
    requires
        h <= len,
        len < u32::MAX,
        n <= len + 1,
    ensures
        highlight_down_n(h, len, n) == (if h + n <= len {
            h + n
        } else {
            h + n - (len + 1)
        }),
    decreases n,
{
    if n > 0 {
        lemma_highlight_down_n(h, len, (n - 1) as nat);
    }
}

} // verus!
