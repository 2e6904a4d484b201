use vstd::prelude::*;

verus! {

/// The key presses the pages react to.
#[derive(Clone, Copy, Debug, PartialEq, Eq, Structural)]
pub enum Key {
    Up,
    Down,
    Left,
    Right,
    Menu,
    Page(usize),
    Other,
}

/// What a page asks of the view after a key press.
#[derive(Clone, Copy, Debug, PartialEq, Eq, Structural)]
pub enum PageAction {
    Stay,
    SwitchPage(usize),
    OpenMenu,
}

/// The menu of a loader block that holds no loader yet.
pub struct EmptyBlockMenu {
    pub items: Vec<String>,
    pub selected_index: usize,
}

impl EmptyBlockMenu {
    /// The selection names an item.
    pub open spec fn wf(&self) -> bool {
        self.selected_index < self.items@.len()
    }

    /// The three ways to give the block a loader, the first one selected.
    pub fn new() -> (r: EmptyBlockMenu)
        ensures
            r.wf(),
            r.items@.len() == 3,
            r.items@[0]@ == "Load Wave From File"@,
            r.items@[1]@ == "Create Wave Generator"@,
            r.items@[2]@ == "Create Sensor Reader"@,
            r.selected_index == 0,
    {
        let mut items: Vec<String> = Vec::new();
        items.push("Load Wave From File".to_owned());
        items.push("Create Wave Generator".to_owned());
        items.push("Create Sensor Reader".to_owned());
        EmptyBlockMenu { items, selected_index: 0 }
    }

    /// The item chosen: the one selected.
    pub fn execute(&self) -> (r: &String)
        requires
            self.wf(),
        ensures
            r@ == self.items@[self.selected_index as int]@,
    {
        &self.items[self.selected_index]
    }

    /// Up and down move the selection within the menu; right chooses the selected
    /// item, whose position is returned.
    pub fn block_key_input(&mut self, key: Key) -> (r: Option<usize>)
        requires
            old(self).wf(),
        ensures
            final(self).wf(),
            final(self).items@ == old(self).items@,
            final(self).selected_index == match key {
                Key::Up => if old(self).selected_index > 0 {
                    (old(self).selected_index - 1) as usize
                } else {
                    old(self).selected_index
                },
                Key::Down => if old(self).selected_index + 1 < old(self).items@.len() {
                    (old(self).selected_index + 1) as usize
                } else {
                    old(self).selected_index
                },
                _ => old(self).selected_index,
            },
            r == match key {
                Key::Right => Some(old(self).selected_index),
                _ => None::<usize>,
            },
    {
        match key {
            Key::Up => {
                if self.selected_index > 0 {
                    self.selected_index -= 1;
                }
                None
            },
            Key::Down => {
                if self.selected_index < self.items.len() - 1 {
                    self.selected_index += 1;
                }
                None
            },
            Key::Right => Some(self.selected_index),
            _ => None,
        }
    }
}

/// Which block of a page of two columns of `rows` blocks has the focus: column, row.
pub struct PageFocus {
    pub focus_rect: [usize; 2],
    pub rows: usize,
}

impl PageFocus {
    /// The focused column.
    pub open spec fn column(&self) -> int {
        self.focus_rect@[0] as int
    }

    /// The focused row.
    pub open spec fn row(&self) -> int {
        self.focus_rect@[1] as int
    }

    /// The focus on the first block of the first column.
    pub fn new(rows: usize) -> (r: PageFocus)
        ensures
            r.column() == 0,
            r.row() == 0,
            r.rows == rows,
    {
        let r = PageFocus { focus_rect: [0, 0], rows };
        assert(r.focus_rect@[0] == 0 && r.focus_rect@[1] == 0);
        r
    }

    /// Moves the focus `dir` rows down (up where negative), where that row exists.
    pub fn navigate_vertical(&mut self, dir: isize)
        ensures
            final(self).rows == old(self).rows,
            final(self).column() == old(self).column(),
            final(self).row() == if 0 <= old(self).row() + dir < old(self).rows {
                old(self).row() + dir
            } else {
                old(self).row()
            },
    {
        let new_index = self.focus_rect[1] as i128 + dir as i128;
        if 0 <= new_index && new_index < self.rows as i128 {
            self.focus_rect[1] = new_index as usize;
        }
    }

    /// Moves the focus `dir` columns right (left where negative), where that column
    /// exists: there are two.
    pub fn navigate_horizontal(&mut self, dir: isize)
        ensures
            final(self).rows == old(self).rows,
            final(self).row() == old(self).row(),
            final(self).column() == if 0 <= old(self).column() + dir < 2 {
                old(self).column() + dir
            } else {
                old(self).column()
            },
    {
        let new_index = self.focus_rect[0] as i128 + dir as i128;
        if 0 <= new_index && new_index < 2 {
            self.focus_rect[0] = new_index as usize;
        }
    }

    /// The loader page's response to a key: the arrows move the focus, a page key
    /// switches pages, the menu key opens the focused block's menu.
    pub fn process_key_input(&mut self, key: Key) -> (r: PageAction)
        ensures
            final(self).rows == old(self).rows,
            final(self).row() == match key {
                Key::Up => if 0 <= old(self).row() - 1 < old(self).rows {
                    old(self).row() - 1
                } else {
                    old(self).row()
                },
                Key::Down => if 0 <= old(self).row() + 1 < old(self).rows {
                    old(self).row() + 1
                } else {
                    old(self).row()
                },
                _ => old(self).row(),
            },
            final(self).column() == match key {
                Key::Left => if 0 <= old(self).column() - 1 < 2 {
                    old(self).column() - 1
                } else {
                    old(self).column()
                },
                Key::Right => if 0 <= old(self).column() + 1 < 2 {
                    old(self).column() + 1
                } else {
                    old(self).column()
                },
                _ => old(self).column(),
            },
            r == match key {
                Key::Page(index) => PageAction::SwitchPage(index),
                Key::Menu => PageAction::OpenMenu,
                _ => PageAction::Stay,
            },
    {
        match key {
            Key::Up => {
                self.navigate_vertical(-1);
                PageAction::Stay
            },
            Key::Down => {
                self.navigate_vertical(1);
                PageAction::Stay
            },
            Key::Left => {
                self.navigate_horizontal(-1);
                PageAction::Stay
            },
            Key::Right => {
                self.navigate_horizontal(1);
                PageAction::Stay
            },
            Key::Page(index) => PageAction::SwitchPage(index),
            Key::Menu => PageAction::OpenMenu,
            Key::Other => PageAction::Stay,
        }
    }
}

/// The top left corners of a column of blocks at `x`, one per track, spread evenly down
/// a frame `frame_height` pixels high.
pub fn column_coordinates(track_number: usize, x: usize, frame_height: usize) -> (r: Vec<[usize; 2]>)
    requires
        track_number > 0,
    ensures
        r@.len() == track_number,
        forall|i: int|
            0 <= i < track_number ==> (#[trigger] r@[i])@ == seq![
                x,
                ((frame_height / track_number) * i) as usize,
            ],
{
    let gap_height = frame_height / track_number;
    let mut r: Vec<[usize; 2]> = Vec::new();
    let mut i: usize = 0;
    while i < track_number
        invariant
            i <= track_number,
            gap_height == frame_height / track_number,
            track_number > 0,
            r@.len() == i,
            forall|k: int|
                0 <= k < i ==> (#[trigger] r@[k])@ == seq![x, ((frame_height / track_number) * k) as usize],
        decreases track_number - i,
    {
        proof {
            assert(gap_height * i <= frame_height) by (nonlinear_arith)
                requires
                    gap_height == frame_height / track_number,
                    i < track_number,
                    track_number > 0,
            ;
        }
        let corner = [x, gap_height * i];
        assert(corner@ =~= seq![x, ((frame_height / track_number) * i) as usize]);
        r.push(corner);
        i += 1;
    }
    r
}

/// The number of pages: the loader page and the wave editor page.
pub const PAGE_COUNT: usize = 2;

/// What the view shows: which page, and on the loader page the focus and whether the
/// focused block's menu is open.
pub struct ViewState {
    pub page_index: usize,
    pub focus: PageFocus,
    pub menu: EmptyBlockMenu,
    pub block_menu_called: bool,
}

impl ViewState {
    /// The page exists and the menu's selection names an item.
    pub open spec fn wf(&self) -> bool {
        &&& self.page_index < PAGE_COUNT
        &&& self.menu.wf()
    }

    /// The loader page, focus on its first block, menu closed.
    pub fn new(track_number: usize) -> (r: ViewState)
        ensures
            r.wf(),
            r.page_index == 0,
            r.focus.column() == 0,
            r.focus.row() == 0,
            r.focus.rows == track_number,
            r.menu.selected_index == 0,
            !r.block_menu_called,
    {
        ViewState {
            page_index: 0,
            focus: PageFocus::new(track_number),
            menu: EmptyBlockMenu::new(),
            block_menu_called: false,
        }
    }

    /// A key press. On the wave editor page only the loader page's key does something:
    /// it goes back. On the loader page with the menu open, the menu key closes it and,
    /// where the focus is in the loader column, the other keys go to the menu, whose
    /// chosen item is returned. Otherwise the key moves the focus, opens the menu, or
    /// switches to an existing page.
    pub fn handle_key(&mut self, key: Key) -> (r: Option<usize>)
        requires
            old(self).wf(),
        ensures
            final(self).wf(),
            final(self).menu.items@ == old(self).menu.items@,
            final(self).focus.rows == old(self).focus.rows,
            old(self).page_index != 0 ==> {
                &&& final(self).page_index == (if key == Key::Page(0) { 0 } else { old(self).page_index })
                &&& final(self).focus == old(self).focus
                &&& final(self).menu.selected_index == old(self).menu.selected_index
                &&& final(self).block_menu_called == old(self).block_menu_called
                &&& r.is_none()
            },
            old(self).page_index == 0 && old(self).block_menu_called ==> {
                &&& final(self).page_index == 0
                &&& final(self).focus == old(self).focus
                &&& final(self).block_menu_called == (key != Key::Menu)
                &&& if key != Key::Menu && old(self).focus.column() == 0 {
                    let m = old(self).menu;
                    &&& final(self).menu.selected_index == match key {
                        Key::Up => if m.selected_index > 0 {
                            (m.selected_index - 1) as usize
                        } else {
                            m.selected_index
                        },
                        Key::Down => if m.selected_index + 1 < m.items@.len() {
                            (m.selected_index + 1) as usize
                        } else {
                            m.selected_index
                        },
                        _ => m.selected_index,
                    }
                    &&& r == match key {
                        Key::Right => Some(m.selected_index),
                        _ => None::<usize>,
                    }
                } else {
                    &&& final(self).menu.selected_index == old(self).menu.selected_index
                    &&& r.is_none()
                }
            },
            old(self).page_index == 0 && !old(self).block_menu_called ==> {
                &&& final(self).menu.selected_index == old(self).menu.selected_index
                &&& r.is_none()
                &&& final(self).block_menu_called == (key == Key::Menu)
                &&& final(self).page_index == match key {
                    Key::Page(index) => if index < PAGE_COUNT {
                        index
                    } else {
                        0
                    },
                    _ => 0,
                }
                &&& final(self).focus.row() == match key {
                    Key::Up => if 0 <= old(self).focus.row() - 1 < old(self).focus.rows {
                        old(self).focus.row() - 1
                    } else {
                        old(self).focus.row()
                    },
                    Key::Down => if 0 <= old(self).focus.row() + 1 < old(self).focus.rows {
                        old(self).focus.row() + 1
                    } else {
                        old(self).focus.row()
                    },
                    _ => old(self).focus.row(),
                }
                &&& final(self).focus.column() == match key {
                    Key::Left => if 0 <= old(self).focus.column() - 1 < 2 {
                        old(self).focus.column() - 1
                    } else {
                        old(self).focus.column()
                    },
                    Key::Right => if 0 <= old(self).focus.column() + 1 < 2 {
                        old(self).focus.column() + 1
                    } else {
                        old(self).focus.column()
                    },
                    _ => old(self).focus.column(),
                }
            },
    {
        if self.page_index != 0 {
            if key == Key::Page(0) {
                self.page_index = 0;
            }
            return None;
        }
        if self.block_menu_called {
            if key == Key::Menu {
                self.block_menu_called = false;
                return None;
            }
            if self.focus.focus_rect[0] == 0 {
                return self.menu.block_key_input(key);
            }
            return None;
        }
        match self.focus.process_key_input(key) {
            PageAction::OpenMenu => {
                self.block_menu_called = true;
            },
            PageAction::SwitchPage(index) => {
                if index < PAGE_COUNT {
                    self.page_index = index;
                }
            },
            PageAction::Stay => {},
        }
        None
    }
}

/// The keys among `keys` that count as new presses: those not held at the last look and
/// not already listed, in the order they come.
pub open spec fn newly_pressed(keys: Seq<Key>, held: Seq<Key>) -> Seq<Key>
    decreases keys.len(),
{
    if keys.len() == 0 {
        Seq::empty()
    } else {
        let rest = newly_pressed(keys.drop_last(), held);
        let k = keys.last();
        if held.contains(k) || keys.drop_last().contains(k) {
            rest
        } else {
            rest.push(k)
        }
    }
}

/// The keys held down at the last look, to tell new presses from keys kept down.
pub struct KeyTracker {
    pub held: Vec<Key>,
}

fn contains_key(keys: &Vec<Key>, key: Key) -> (r: bool)
    ensures
        r == keys@.contains(key),
{
    let mut i: usize = 0;
    while i < keys.len()
        invariant
            i <= keys@.len(),
            forall|j: int| 0 <= j < i ==> keys@[j] != key,
        decreases keys@.len() - i,
    {
        if keys[i] == key {
            return true;
        }
        i += 1;
    }
    false
}

impl KeyTracker {
    /// No key held.
    pub fn new() -> (r: KeyTracker)
        ensures
            r.held@ == Seq::<Key>::empty(),
    {
        KeyTracker { held: Vec::new() }
    }

    /// Takes the keys held down now and returns those newly pressed, each once.
    pub fn check_keys(&mut self, keys: Vec<Key>) -> (r: Vec<Key>)
        ensures
            r@ == newly_pressed(keys@, old(self).held@),
            final(self).held@ == keys@,
    {
        let mut out: Vec<Key> = Vec::new();
        let mut i: usize = 0;
        while i < keys.len()
            invariant
                i <= keys@.len(),
                out@ == newly_pressed(keys@.take(i as int), self.held@),
                self.held@ == old(self).held@,
            decreases keys@.len() - i,
        {
            let key = keys[i];
            proof {
                assert(keys@.take(i as int + 1).drop_last() =~= keys@.take(i as int));
                assert(keys@.take(i as int + 1).last() == key);
            }
            if !contains_key(&self.held, key) {
                let mut seen = false;
                let mut j: usize = 0;
                while j < i
                    invariant
                        j <= i < keys@.len(),
                        seen == keys@.take(j as int).contains(key),
                    decreases i - j,
                {
                    if keys[j] == key {
                        seen = true;
                    }
                    proof {
                        let t0 = keys@.take(j as int);
                        let t1 = keys@.take(j as int + 1);
                        assert(t1 =~= t0.push(keys@[j as int]));
                        if keys@[j as int] == key {
                            assert(t1[j as int] == key);
                        } else if t1.contains(key) {
                            let w = choose|w: int| 0 <= w < t1.len() && t1[w] == key;
                            assert(w < j);
                            assert(t0[w] == key);
                        }
                    }
                    j += 1;
                }
                if !seen {
                    out.push(key);
                }
            }
            i += 1;
        }
        assert(keys@.take(i as int) =~= keys@);
        self.held = keys;
        out
    }
}

} // verus!
