//! The tab record and its mathematical view.

use vstd::prelude::*;

verus! {

/// A browser tab with the title of the group it belongs to.
#[derive(Debug)]
pub struct TabInfo {
    pub id: Option<u32>,
    pub title: Option<String>,
    pub url: Option<String>,
    /// Time of last access, as the bit pattern of an IEEE-754 double.
    pub last_accessed: Option<u64>,
    pub group_id: Option<u32>,
    pub group_title: Option<String>,
}

/// What a `TabInfo` holds, with each string as its sequence of characters.
pub struct TabInfoView {
    pub id: Option<u32>,
    pub title: Option<Seq<char>>,
    pub url: Option<Seq<char>>,
    pub last_accessed: Option<u64>,
    pub group_id: Option<u32>,
    pub group_title: Option<Seq<char>>,
}

/// The characters of an optional string.
pub open spec fn text_view(text: Option<String>) -> Option<Seq<char>> {
    match text {
        Some(t) => Some(t@),
        None => None,
    }
}

impl View for TabInfo {
    type V = TabInfoView;

    open spec fn view(&self) -> TabInfoView {
        TabInfoView {
            id: self.id,
            title: text_view(self.title),
            url: text_view(self.url),
            last_accessed: self.last_accessed,
            group_id: self.group_id,
            group_title: text_view(self.group_title),
        }
    }
}

impl TabInfoView {
    /// A record without a group carries no group title.
    pub open spec fn well_formed(self) -> bool {
        self.group_id is None ==> self.group_title is None
    }
}

/// The views of a sequence of records, in the same order.
pub open spec fn views(tabs: Seq<TabInfo>) -> Seq<TabInfoView> {
    Seq::new(tabs.len(), |i: int| tabs[i]@)
}

/// A copy of an optional string.
fn copy_text(text: &Option<String>) -> (copy: Option<String>)
    ensures
        copy == *text,
{
    match text {
        Some(t) => Some(t.clone()),
        None => None,
    }
}

impl Clone for TabInfo {
    fn clone(&self) -> (copy: TabInfo)
        ensures
            copy == *self,
    {
        TabInfo {
            id: self.id,
            title: copy_text(&self.title),
            url: copy_text(&self.url),
            last_accessed: self.last_accessed,
            group_id: self.group_id,
            group_title: copy_text(&self.group_title),
        }
    }
}

} // verus!
