use vstd::prelude::*;

verus! {

/// A page of the interface: it draws itself and takes key presses.
pub trait PageBehavior {
    fn render(&self);

    fn handle_key_event(&mut self, key: u8);
}

/// The pages of the interface and the one on show.
pub struct PageManager<P: PageBehavior> {
    pub pages: Vec<P>,
    pub current_page_index: usize,
}

impl<P: PageBehavior> PageManager<P> {
    /// The pages, with the first one on show.
    pub fn new(pages: Vec<P>) -> (r: PageManager<P>)
        ensures
            r.pages@ == pages@,
            r.current_page_index == 0,
    {
        PageManager { pages, current_page_index: 0 }
    }

    /// Shows page `index`, where there is such a page; otherwise nothing changes.
    pub fn switch_to_page(&mut self, index: usize)
        ensures
            final(self).pages@ == old(self).pages@,
            final(self).current_page_index == if index < old(self).pages@.len() {
                index
            } else {
                old(self).current_page_index
            },
    {
        if index < self.pages.len() {
            self.current_page_index = index;
        }
    }

    /// Draws the page on show, if there is one.
    pub fn render_current_page(&self) {
        if self.current_page_index < self.pages.len() {
            self.pages[self.current_page_index].render();
        }
    }

    /// Hands `key` to the page on show, if there is one; the other pages do not change.
    pub fn handle_key_event(&mut self, key: u8)
        ensures
            final(self).current_page_index == old(self).current_page_index,
            final(self).pages@.len() == old(self).pages@.len(),
            forall|j: int|
                0 <= j < old(self).pages@.len() && j != old(self).current_page_index
                    ==> final(self).pages@[j] == old(self).pages@[j],
    {
        let i = self.current_page_index;
        if i < self.pages.len() {
            self.pages[i].handle_key_event(key);
        }
    }
}

} // verus!
