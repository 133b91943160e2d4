//! Persistent whiteboard store: three relational tables held as an exact
//! in-memory model.
//!
//! Contents, placed items and groups are keyed by id; saving is an
//! insert-or-replace of the full row, deleting an item removes its owned
//! content with it, and deleting a group removes only the group row (its
//! children keep their now-dangling parent reference, as the source
//! behaviour has it). Shortcut numbers are allocated sequentially:
//! one past the highest number in use, never a reclaimed gap. The durable
//! medium behind this model is the application's concern.

use vstd::prelude::*;
use vstd::string::StringSliceAdditionalSpecFns;

use crate::bytescan::{copy_bytes, copy_opt_bytes, is_digit};
use crate::types::{
    groups_view, opt_bytes_view, ClipboardContent, ContentView, Group, GroupView, ItemView,
    Position, Size, WhiteboardItem, WhiteboardState,
};
use crate::volatile::contents_view;

verus! {

broadcast use vstd::prelude::Seq::lemma_push_map_commute;

/// Why a store operation failed.
#[derive(Debug, Clone, Copy, PartialEq, Eq, Structural)]
pub enum StorageError {
    /// A tree import descended deeper than the recursion bound.
    TooDeep,
}

/// One row of the placed-items table: the placement of a content, which
/// the contents table holds under `content_id`.
#[derive(Debug, PartialEq)]
pub struct ItemRow {
    pub id: u128,
    pub content_id: u128,
    pub position: Position,
    pub size: Size,
    pub parent_group: Option<u128>,
    pub shortcut: Option<Vec<u8>>,
    pub label: Option<Vec<u8>>,
    pub created_at: i64,
    pub updated_at: i64,
}

/// Mathematical view of an item row.
pub struct ItemRowView {
    pub id: u128,
    pub content_id: u128,
    pub position: Position,
    pub size: Size,
    pub parent_group: Option<u128>,
    pub shortcut: Option<Seq<u8>>,
    pub label: Option<Seq<u8>>,
    pub created_at: i64,
    pub updated_at: i64,
}

impl View for ItemRow {
    type V = ItemRowView;

    open spec fn view(&self) -> ItemRowView {
        ItemRowView {
            id: self.id,
            content_id: self.content_id,
            position: self.position,
            size: self.size,
            parent_group: self.parent_group,
            shortcut: opt_bytes_view(self.shortcut),
            label: opt_bytes_view(self.label),
            created_at: self.created_at,
            updated_at: self.updated_at,
        }
    }
}

impl Clone for ItemRow {
    fn clone(&self) -> (r: Self)
        ensures
            r@ == self@,
    {
        ItemRow {
            id: self.id,
            content_id: self.content_id,
            position: self.position,
            size: self.size,
            parent_group: self.parent_group,
            shortcut: copy_opt_bytes(&self.shortcut),
            label: copy_opt_bytes(&self.label),
            created_at: self.created_at,
            updated_at: self.updated_at,
        }
    }
}

/// Views of a sequence of item rows.
pub open spec fn item_rows_view(v: Seq<ItemRow>) -> Seq<ItemRowView> {
    v.map_values(|r: ItemRow| r@)
}

/// Mathematical view of the whole store.
pub struct StoreView {
    pub contents: Seq<ContentView>,
    pub items: Seq<ItemRowView>,
    pub groups: Seq<GroupView>,
}

/// The persistent whiteboard store.
pub struct PersistentStorage {
    contents: Vec<ClipboardContent>,
    items: Vec<ItemRow>,
    groups: Vec<Group>,
}

impl View for PersistentStorage {
    type V = StoreView;

    closed spec fn view(&self) -> StoreView {
        StoreView {
            contents: contents_view(self.contents@),
            items: item_rows_view(self.items@),
            groups: groups_view(self.groups@),
        }
    }
}

pub open spec fn unique_content_ids(s: Seq<ContentView>) -> bool {
    forall|i: int, j: int| 0 <= i < j < s.len() ==> s[i].id != s[j].id
}

pub open spec fn unique_item_ids(s: Seq<ItemRowView>) -> bool {
    forall|i: int, j: int| 0 <= i < j < s.len() ==> s[i].id != s[j].id
}

pub open spec fn unique_group_ids(s: Seq<GroupView>) -> bool {
    forall|i: int, j: int| 0 <= i < j < s.len() ==> s[i].id != s[j].id
}

/// Store well-formedness: ids are unique per table.
pub open spec fn store_wf(v: StoreView) -> bool {
    unique_content_ids(v.contents) && unique_item_ids(v.items) && unique_group_ids(v.groups)
}

// ---------------------------------------------------------------------------
// Insert-or-replace, modelled as a first-match replacement.
// ---------------------------------------------------------------------------

/// Insert-or-replace a content row by id.
pub open spec fn upsert_content(s: Seq<ContentView>, c: ContentView) -> Seq<ContentView>
    decreases s.len(),
{
    if s.len() == 0 {
        seq![c]
    } else if s[0].id == c.id {
        seq![c] + s.drop_first()
    } else {
        seq![s[0]] + upsert_content(s.drop_first(), c)
    }
}

/// Insert-or-replace an item row by id.
pub open spec fn upsert_item(s: Seq<ItemRowView>, r: ItemRowView) -> Seq<ItemRowView>
    decreases s.len(),
{
    if s.len() == 0 {
        seq![r]
    } else if s[0].id == r.id {
        seq![r] + s.drop_first()
    } else {
        seq![s[0]] + upsert_item(s.drop_first(), r)
    }
}

/// Insert-or-replace a group row by id.
pub open spec fn upsert_group(s: Seq<GroupView>, g: GroupView) -> Seq<GroupView>
    decreases s.len(),
{
    if s.len() == 0 {
        seq![g]
    } else if s[0].id == g.id {
        seq![g] + s.drop_first()
    } else {
        seq![s[0]] + upsert_group(s.drop_first(), g)
    }
}

/// When the first match sits at `k`, the upsert is an update at `k`.
proof fn lemma_upsert_content_hit(s: Seq<ContentView>, c: ContentView, k: int)
    requires
        0 <= k < s.len(),
        s[k].id == c.id,
        forall|j: int| 0 <= j < k ==> s[j].id != c.id,
    ensures
        upsert_content(s, c) == s.update(k, c),
    decreases k,
{
    if k == 0 {
        assert(upsert_content(s, c) =~= s.update(0, c));
    } else {
        lemma_upsert_content_hit(s.drop_first(), c, k - 1);
        assert(upsert_content(s, c) =~= s.update(k, c));
    }
}

/// With no match at all, the upsert is a push.
proof fn lemma_upsert_content_miss(s: Seq<ContentView>, c: ContentView)
    requires
        forall|j: int| 0 <= j < s.len() ==> s[j].id != c.id,
    ensures
        upsert_content(s, c) == s.push(c),
    decreases s.len(),
{
    if s.len() == 0 {
        assert(upsert_content(s, c) =~= s.push(c));
    } else {
        lemma_upsert_content_miss(s.drop_first(), c);
        assert(upsert_content(s, c) =~= s.push(c));
    }
}

proof fn lemma_upsert_item_hit(s: Seq<ItemRowView>, r: ItemRowView, k: int)
    requires
        0 <= k < s.len(),
        s[k].id == r.id,
        forall|j: int| 0 <= j < k ==> s[j].id != r.id,
    ensures
        upsert_item(s, r) == s.update(k, r),
    decreases k,
{
    if k == 0 {
        assert(upsert_item(s, r) =~= s.update(0, r));
    } else {
        lemma_upsert_item_hit(s.drop_first(), r, k - 1);
        assert(upsert_item(s, r) =~= s.update(k, r));
    }
}

proof fn lemma_upsert_item_miss(s: Seq<ItemRowView>, r: ItemRowView)
    requires
        forall|j: int| 0 <= j < s.len() ==> s[j].id != r.id,
    ensures
        upsert_item(s, r) == s.push(r),
    decreases s.len(),
{
    if s.len() == 0 {
        assert(upsert_item(s, r) =~= s.push(r));
    } else {
        lemma_upsert_item_miss(s.drop_first(), r);
        assert(upsert_item(s, r) =~= s.push(r));
    }
}

proof fn lemma_upsert_group_hit(s: Seq<GroupView>, g: GroupView, k: int)
    requires
        0 <= k < s.len(),
        s[k].id == g.id,
        forall|j: int| 0 <= j < k ==> s[j].id != g.id,
    ensures
        upsert_group(s, g) == s.update(k, g),
    decreases k,
{
    if k == 0 {
        assert(upsert_group(s, g) =~= s.update(0, g));
    } else {
        lemma_upsert_group_hit(s.drop_first(), g, k - 1);
        assert(upsert_group(s, g) =~= s.update(k, g));
    }
}

proof fn lemma_upsert_group_miss(s: Seq<GroupView>, g: GroupView)
    requires
        forall|j: int| 0 <= j < s.len() ==> s[j].id != g.id,
    ensures
        upsert_group(s, g) == s.push(g),
    decreases s.len(),
{
    if s.len() == 0 {
        assert(upsert_group(s, g) =~= s.push(g));
    } else {
        lemma_upsert_group_miss(s.drop_first(), g);
        assert(upsert_group(s, g) =~= s.push(g));
    }
}

impl PersistentStorage {
    /// Empty store.
    pub fn new() -> (r: Self)
        ensures
            r@.contents == Seq::<ContentView>::empty(),
            r@.items == Seq::<ItemRowView>::empty(),
            r@.groups == Seq::<GroupView>::empty(),
            store_wf(r@),
    {
        let r = PersistentStorage { contents: Vec::new(), items: Vec::new(), groups: Vec::new() };
        proof {
            assert(r@.contents =~= Seq::<ContentView>::empty());
            assert(r@.items =~= Seq::<ItemRowView>::empty());
            assert(r@.groups =~= Seq::<GroupView>::empty());
        }
        r
    }

    fn find_content_index(&self, id: u128) -> (r: Option<usize>)
        ensures
            match r {
                Some(k) => k < self@.contents.len() && self@.contents[k as int].id == id && (
                forall|j: int| 0 <= j < k ==> self@.contents[j].id != id),
                None => forall|j: int|
                    0 <= j < self@.contents.len() ==> self@.contents[j].id != id,
            },
    {
        let mut k: usize = 0;
        while k < self.contents.len()
            invariant
                k <= self.contents@.len(),
                self@.contents.len() == self.contents@.len(),
                forall|j: int| 0 <= j < k ==> self@.contents[j].id != id,
            decreases self.contents@.len() - k,
        {
            if self.contents[k].id == id {
                assert(self@.contents[k as int].id == id);
                return Some(k);
            }
            k += 1;
        }
        None
    }

    fn find_item_index(&self, id: u128) -> (r: Option<usize>)
        ensures
            match r {
                Some(k) => k < self@.items.len() && self@.items[k as int].id == id && (forall|
                    j: int,
                | 0 <= j < k ==> self@.items[j].id != id),
                None => forall|j: int| 0 <= j < self@.items.len() ==> self@.items[j].id != id,
            },
    {
        let mut k: usize = 0;
        while k < self.items.len()
            invariant
                k <= self.items@.len(),
                self@.items.len() == self.items@.len(),
                forall|j: int| 0 <= j < k ==> self@.items[j].id != id,
            decreases self.items@.len() - k,
        {
            if self.items[k].id == id {
                assert(self@.items[k as int].id == id);
                return Some(k);
            }
            k += 1;
        }
        None
    }

    fn find_group_index(&self, id: u128) -> (r: Option<usize>)
        ensures
            match r {
                Some(k) => k < self@.groups.len() && self@.groups[k as int].id == id && (forall|
                    j: int,
                | 0 <= j < k ==> self@.groups[j].id != id),
                None => forall|j: int| 0 <= j < self@.groups.len() ==> self@.groups[j].id != id,
            },
    {
        let mut k: usize = 0;
        while k < self.groups.len()
            invariant
                k <= self.groups@.len(),
                self@.groups.len() == self.groups@.len(),
                forall|j: int| 0 <= j < k ==> self@.groups[j].id != id,
            decreases self.groups@.len() - k,
        {
            if self.groups[k].id == id {
                assert(self@.groups[k as int].id == id);
                return Some(k);
            }
            k += 1;
        }
        None
    }

    /// Insert-or-replace one content row by its id. The whole row is
    /// overwritten; items and groups are untouched.
    pub fn save_clipboard_content(&mut self, content: &ClipboardContent)
        requires
            store_wf(old(self)@),
        ensures
            final(self)@.contents == upsert_content(old(self)@.contents, content@),
            final(self)@.items == old(self)@.items,
            final(self)@.groups == old(self)@.groups,
            store_wf(final(self)@),
    {
        let c = content.clone();
        match self.find_content_index(content.id) {
            Some(k) => {
                proof {
                    lemma_upsert_content_hit(self@.contents, content@, k as int);
                }
                self.contents.set(k, c);
                proof {
                    assert(final(self)@.contents =~= old(self)@.contents.update(
                        k as int,
                        content@,
                    ));
                }
            },
            None => {
                proof {
                    lemma_upsert_content_miss(self@.contents, content@);
                }
                self.contents.push(c);
                proof {
                    assert(final(self)@.contents =~= old(self)@.contents.push(content@));
                }
            },
        }
        proof {
            assert(final(self)@.items =~= old(self)@.items);
            assert(final(self)@.groups =~= old(self)@.groups);
            lemma_wf_after_content_upsert(old(self)@, final(self)@, content@);
        }
    }
}

/// Replacing or appending a content row keeps the store well-formed.
proof fn lemma_wf_after_content_upsert(v0: StoreView, v1: StoreView, c: ContentView)
    requires
        store_wf(v0),
        v1.items == v0.items,
        v1.groups == v0.groups,
        v1.contents == upsert_content(v0.contents, c),
    ensures
        store_wf(v1),
{
    lemma_upsert_content_ids(v0.contents, c);
}

/// After an upsert: ids are still unique, the new row is present, and
/// every old row with a different id is still present.
proof fn lemma_upsert_content_ids(s: Seq<ContentView>, c: ContentView)
    requires
        unique_content_ids(s),
    ensures
        unique_content_ids(upsert_content(s, c)),
        exists|j: int|
            0 <= j < upsert_content(s, c).len() && upsert_content(s, c)[j] == c && upsert_content(
                s,
                c,
            )[j].id == c.id,
        forall|j0: int|
            0 <= j0 < s.len() && s[j0].id != c.id ==> exists|j: int|
                0 <= j < upsert_content(s, c).len() && upsert_content(s, c)[j] == #[trigger] s[j0],
    decreases s.len(),
{
    let out = upsert_content(s, c);
    if s.len() == 0 {
        assert(out[0] == c);
    } else if s[0].id == c.id {
        assert(out[0] == c);
        assert forall|j0: int| 0 <= j0 < s.len() && s[j0].id != c.id implies exists|j: int|
            0 <= j < out.len() && out[j] == #[trigger] s[j0] by {
            assert(j0 > 0);
            assert(out[j0] == s.drop_first()[j0 - 1]);
            assert(out[j0] == s[j0]);
        }
    } else {
        lemma_upsert_content_ids(s.drop_first(), c);
        let rest = upsert_content(s.drop_first(), c);
        assert(out =~= seq![s[0]] + rest);
        let jc = choose|j: int| 0 <= j < rest.len() && rest[j] == c && rest[j].id == c.id;
        assert(out[jc + 1] == c);
        assert forall|i: int, j: int| 0 <= i < j < out.len() implies out[i].id != out[j].id by {
            if i == 0 {
                if out[j] == c {
                } else {
                    // out[j] is some row of s.drop_first() with id != c.id
                }
                if j == jc + 1 {
                    assert(out[j].id == c.id);
                    assert(out[0].id != c.id);
                } else {
                    lemma_upsert_keeps_other_ids(s.drop_first(), c, j - 1);
                }
            } else {
                assert(out[i] == rest[i - 1] && out[j] == rest[j - 1]);
            }
        }
        assert forall|j0: int| 0 <= j0 < s.len() && s[j0].id != c.id implies exists|j: int|
            0 <= j < out.len() && out[j] == #[trigger] s[j0] by {
            if j0 == 0 {
                assert(out[0] == s[0]);
            } else {
                assert(s.drop_first()[j0 - 1] == s[j0]);
                let jj = choose|j: int| 0 <= j < rest.len() && rest[j] == s.drop_first()[j0 - 1];
                assert(out[jj + 1] == s[j0]);
            }
        }
    }
}

/// Every row of an upsert result either is the new row or keeps an id
/// from the old rows.
proof fn lemma_upsert_keeps_other_ids(s: Seq<ContentView>, c: ContentView, j: int)
    requires
        0 <= j < upsert_content(s, c).len(),
    ensures
        upsert_content(s, c)[j] == c || (exists|j0: int|
            0 <= j0 < s.len() && #[trigger] upsert_content(s, c)[j].id == s[j0].id),
    decreases s.len(),
{
    let out = upsert_content(s, c);
    if s.len() == 0 {
    } else if s[0].id == c.id {
        if j > 0 {
            assert(out[j] == s.drop_first()[j - 1]);
            assert(out[j].id == s[j].id);
        }
    } else {
        if j == 0 {
            assert(out[0].id == s[0].id);
        } else {
            assert(out[j] == upsert_content(s.drop_first(), c)[j - 1]);
            lemma_upsert_keeps_other_ids(s.drop_first(), c, j - 1);
        }
    }
}

/// Item-row analogue of `lemma_upsert_content_ids`.
proof fn lemma_upsert_item_ids(s: Seq<ItemRowView>, r: ItemRowView)
    requires
        unique_item_ids(s),
    ensures
        unique_item_ids(upsert_item(s, r)),
        exists|j: int|
            0 <= j < upsert_item(s, r).len() && upsert_item(s, r)[j] == r && upsert_item(
                s,
                r,
            )[j].id == r.id,
        forall|j0: int|
            0 <= j0 < s.len() && s[j0].id != r.id ==> exists|j: int|
                0 <= j < upsert_item(s, r).len() && upsert_item(s, r)[j] == #[trigger] s[j0],
    decreases s.len(),
{
    let out = upsert_item(s, r);
    if s.len() == 0 {
        assert(out[0] == r);
    } else if s[0].id == r.id {
        assert(out[0] == r);
        assert forall|j0: int| 0 <= j0 < s.len() && s[j0].id != r.id implies exists|j: int|
            0 <= j < out.len() && out[j] == #[trigger] s[j0] by {
            assert(j0 > 0);
            assert(out[j0] == s.drop_first()[j0 - 1]);
            assert(out[j0] == s[j0]);
        }
    } else {
        lemma_upsert_item_ids(s.drop_first(), r);
        let rest = upsert_item(s.drop_first(), r);
        assert(out =~= seq![s[0]] + rest);
        let jc = choose|j: int| 0 <= j < rest.len() && rest[j] == r && rest[j].id == r.id;
        assert(out[jc + 1] == r);
        assert forall|i: int, j: int| 0 <= i < j < out.len() implies out[i].id != out[j].id by {
            if i == 0 {
                if j == jc + 1 {
                    assert(out[j].id == r.id);
                    assert(out[0].id != r.id);
                } else {
                    lemma_upsert_item_keeps_ids(s.drop_first(), r, j - 1);
                }
            } else {
                assert(out[i] == rest[i - 1] && out[j] == rest[j - 1]);
            }
        }
        assert forall|j0: int| 0 <= j0 < s.len() && s[j0].id != r.id implies exists|j: int|
            0 <= j < out.len() && out[j] == #[trigger] s[j0] by {
            if j0 == 0 {
                assert(out[0] == s[0]);
            } else {
                assert(s.drop_first()[j0 - 1] == s[j0]);
                let jj = choose|j: int| 0 <= j < rest.len() && rest[j] == s.drop_first()[j0 - 1];
                assert(out[jj + 1] == s[j0]);
            }
        }
    }
}

proof fn lemma_upsert_item_keeps_ids(s: Seq<ItemRowView>, r: ItemRowView, j: int)
    requires
        0 <= j < upsert_item(s, r).len(),
    ensures
        upsert_item(s, r)[j] == r || (exists|j0: int|
            0 <= j0 < s.len() && #[trigger] upsert_item(s, r)[j].id == s[j0].id),
    decreases s.len(),
{
    let out = upsert_item(s, r);
    if s.len() == 0 {
    } else if s[0].id == r.id {
        if j > 0 {
            assert(out[j] == s.drop_first()[j - 1]);
            assert(out[j].id == s[j].id);
        }
    } else {
        if j == 0 {
            assert(out[0].id == s[0].id);
        } else {
            assert(out[j] == upsert_item(s.drop_first(), r)[j - 1]);
            lemma_upsert_item_keeps_ids(s.drop_first(), r, j - 1);
        }
    }
}

/// Group analogue of `lemma_upsert_content_ids`.
proof fn lemma_upsert_group_ids(s: Seq<GroupView>, g: GroupView)
    requires
        unique_group_ids(s),
    ensures
        unique_group_ids(upsert_group(s, g)),
        exists|j: int|
            0 <= j < upsert_group(s, g).len() && upsert_group(s, g)[j] == g && upsert_group(
                s,
                g,
            )[j].id == g.id,
        forall|j0: int|
            0 <= j0 < s.len() && s[j0].id != g.id ==> exists|j: int|
                0 <= j < upsert_group(s, g).len() && upsert_group(s, g)[j] == #[trigger] s[j0],
    decreases s.len(),
{
    let out = upsert_group(s, g);
    if s.len() == 0 {
        assert(out[0] == g);
    } else if s[0].id == g.id {
        assert(out[0] == g);
        assert forall|j0: int| 0 <= j0 < s.len() && s[j0].id != g.id implies exists|j: int|
            0 <= j < out.len() && out[j] == #[trigger] s[j0] by {
            assert(j0 > 0);
            assert(out[j0] == s.drop_first()[j0 - 1]);
            assert(out[j0] == s[j0]);
        }
    } else {
        lemma_upsert_group_ids(s.drop_first(), g);
        let rest = upsert_group(s.drop_first(), g);
        assert(out =~= seq![s[0]] + rest);
        let jc = choose|j: int| 0 <= j < rest.len() && rest[j] == g && rest[j].id == g.id;
        assert(out[jc + 1] == g);
        assert forall|i: int, j: int| 0 <= i < j < out.len() implies out[i].id != out[j].id by {
            if i == 0 {
                if j == jc + 1 {
                    assert(out[j].id == g.id);
                    assert(out[0].id != g.id);
                } else {
                    lemma_upsert_group_keeps_ids(s.drop_first(), g, j - 1);
                }
            } else {
                assert(out[i] == rest[i - 1] && out[j] == rest[j - 1]);
            }
        }
        assert forall|j0: int| 0 <= j0 < s.len() && s[j0].id != g.id implies exists|j: int|
            0 <= j < out.len() && out[j] == #[trigger] s[j0] by {
            if j0 == 0 {
                assert(out[0] == s[0]);
            } else {
                assert(s.drop_first()[j0 - 1] == s[j0]);
                let jj = choose|j: int| 0 <= j < rest.len() && rest[j] == s.drop_first()[j0 - 1];
                assert(out[jj + 1] == s[j0]);
            }
        }
    }
}

proof fn lemma_upsert_group_keeps_ids(s: Seq<GroupView>, g: GroupView, j: int)
    requires
        0 <= j < upsert_group(s, g).len(),
    ensures
        upsert_group(s, g)[j] == g || (exists|j0: int|
            0 <= j0 < s.len() && #[trigger] upsert_group(s, g)[j].id == s[j0].id),
    decreases s.len(),
{
    let out = upsert_group(s, g);
    if s.len() == 0 {
    } else if s[0].id == g.id {
        if j > 0 {
            assert(out[j] == s.drop_first()[j - 1]);
            assert(out[j].id == s[j].id);
        }
    } else {
        if j == 0 {
            assert(out[0].id == s[0].id);
        } else {
            assert(out[j] == upsert_group(s.drop_first(), g)[j - 1]);
            lemma_upsert_group_keeps_ids(s.drop_first(), g, j - 1);
        }
    }
}

/// The item row a placed item persists as.
pub open spec fn row_of_item(it: ItemView) -> ItemRowView {
    ItemRowView {
        id: it.id,
        content_id: it.content.id,
        position: it.position,
        size: it.size,
        parent_group: it.parent_group,
        shortcut: it.shortcut,
        label: it.label,
        created_at: it.created_at,
        updated_at: it.updated_at,
    }
}

impl PersistentStorage {
    /// Insert-or-replace a placed item: first its owned content, then the
    /// item row, both full-row overwrites by id.
    pub fn save_whiteboard_item(&mut self, item: &WhiteboardItem)
        requires
            store_wf(old(self)@),
        ensures
            final(self)@.contents == upsert_content(old(self)@.contents, item@.content),
            final(self)@.items == upsert_item(old(self)@.items, row_of_item(item@)),
            final(self)@.groups == old(self)@.groups,
            store_wf(final(self)@),
    {
        self.save_clipboard_content(&item.content);
        let row = ItemRow {
            id: item.id,
            content_id: item.content.id,
            position: item.position,
            size: item.size,
            parent_group: item.parent_group,
            shortcut: copy_opt_bytes(&item.shortcut),
            label: copy_opt_bytes(&item.label),
            created_at: item.created_at,
            updated_at: item.updated_at,
        };
        proof {
            assert(row@ == row_of_item(item@));
        }
        match self.find_item_index(item.id) {
            Some(k) => {
                proof {
                    lemma_upsert_item_hit(self@.items, row@, k as int);
                }
                self.items.set(k, row);
                proof {
                    assert(final(self)@.items =~= item_rows_view(old(self).items@).update(
                        k as int,
                        row_of_item(item@),
                    ));
                }
            },
            None => {
                proof {
                    lemma_upsert_item_miss(self@.items, row@);
                }
                self.items.push(row);
                proof {
                    assert(final(self)@.items =~= item_rows_view(old(self).items@).push(
                        row_of_item(item@),
                    ));
                }
            },
        }
        proof {
            assert(final(self)@.contents =~= upsert_content(old(self)@.contents, item@.content));
            assert(final(self)@.groups =~= old(self)@.groups);
            lemma_upsert_item_ids(old(self)@.items, row_of_item(item@));
        }
    }

    /// Insert-or-replace a group, full-row overwrite by id. No other table
    /// is touched.
    pub fn save_group(&mut self, group: &Group)
        requires
            store_wf(old(self)@),
        ensures
            final(self)@.groups == upsert_group(old(self)@.groups, group@),
            final(self)@.contents == old(self)@.contents,
            final(self)@.items == old(self)@.items,
            store_wf(final(self)@),
    {
        let g = group.clone();
        match self.find_group_index(group.id) {
            Some(k) => {
                proof {
                    lemma_upsert_group_hit(self@.groups, group@, k as int);
                }
                self.groups.set(k, g);
                proof {
                    assert(final(self)@.groups =~= groups_view(old(self).groups@).update(
                        k as int,
                        group@,
                    ));
                }
            },
            None => {
                proof {
                    lemma_upsert_group_miss(self@.groups, group@);
                }
                self.groups.push(g);
                proof {
                    assert(final(self)@.groups =~= groups_view(old(self).groups@).push(group@));
                }
            },
        }
        proof {
            assert(final(self)@.contents =~= old(self)@.contents);
            assert(final(self)@.items =~= old(self)@.items);
            lemma_upsert_group_ids(old(self)@.groups, group@);
        }
    }
}

// ---------------------------------------------------------------------------
// Reading the whiteboard back.
// ---------------------------------------------------------------------------

/// The content row carrying `id`, where one exists.
pub open spec fn content_with_id(s: Seq<ContentView>, id: u128) -> ContentView {
    s[choose|j: int| 0 <= j < s.len() && s[j].id == id]
}

/// The item row's content reference resolves in `s`.
pub open spec fn row_resolves(s: Seq<ContentView>, row: ItemRowView) -> bool {
    exists|j: int| 0 <= j < s.len() && s[j].id == row.content_id
}

/// A placed item assembled from its row and its content.
pub open spec fn assemble_item(row: ItemRowView, c: ContentView) -> ItemView {
    ItemView {
        id: row.id,
        content: c,
        position: row.position,
        size: row.size,
        parent_group: row.parent_group,
        shortcut: row.shortcut,
        label: row.label,
        created_at: row.created_at,
        updated_at: row.updated_at,
    }
}

/// The items a load returns: each row joined with its content; rows whose
/// content is missing are dropped, as a relational join drops them.
pub open spec fn loaded_items(contents: Seq<ContentView>, rows: Seq<ItemRowView>) -> Seq<
    ItemView,
> {
    rows.filter(|row: ItemRowView| row_resolves(contents, row)).map_values(
        |row: ItemRowView| assemble_item(row, content_with_id(contents, row.content_id)),
    )
}

/// The ids of the loaded items that sit at the root, in load order.
pub open spec fn root_ids(items: Seq<ItemView>) -> Seq<u128> {
    items.filter(|it: ItemView| it.parent_group is None).map_values(|it: ItemView| it.id)
}

impl PersistentStorage {
    /// One read pass over the whole whiteboard: every group, every item
    /// joined with its embedded content, and the ids of the parentless
    /// items as the root list.
    pub fn load_whiteboard(&self) -> (r: WhiteboardState)
        requires
            store_wf(self@),
        ensures
            r@.groups == self@.groups,
            r@.items == loaded_items(self@.contents, self@.items),
            r@.root_items == root_ids(loaded_items(self@.contents, self@.items)),
    {
        let mut out_items: Vec<WhiteboardItem> = Vec::new();
        let mut roots: Vec<u128> = Vec::new();
        let mut i: usize = 0;
        proof {
            reveal(Seq::filter);
            assert(self@.items.take(0) =~= Seq::<ItemRowView>::empty());
            assert(crate::types::items_view(out_items@) =~= loaded_items(
                self@.contents,
                self@.items.take(0),
            ));
            assert(roots@ =~= root_ids(loaded_items(self@.contents, self@.items.take(0))));
        }
        while i < self.items.len()
            invariant
                i <= self.items@.len(),
                store_wf(self@),
                self@.items.len() == self.items@.len(),
                crate::types::items_view(out_items@) == loaded_items(
                    self@.contents,
                    self@.items.take(i as int),
                ),
                roots@ == root_ids(loaded_items(self@.contents, self@.items.take(i as int))),
            decreases self.items@.len() - i,
        {
            proof {
                reveal(Seq::filter);
                assert(self@.items.take(i + 1).drop_last() =~= self@.items.take(i as int));
                assert(self@.items.take(i + 1).last() == self@.items[i as int]);
            }
            let row = &self.items[i];
            match self.find_content_index(row.content_id) {
                Some(k) => {
                    let content = self.contents[k].clone();
                    proof {
                        let cid = self@.items[i as int].content_id;
                        let j = choose|j: int|
                            0 <= j < self@.contents.len() && self@.contents[j].id == cid;
                        assert(self@.contents[j].id == cid && self@.contents[k as int].id == cid);
                        assert(j == k);
                        assert(content@ == content_with_id(self@.contents, cid));
                        assert(row_resolves(self@.contents, self@.items[i as int]));
                    }
                    let item = WhiteboardItem {
                        id: row.id,
                        content,
                        position: row.position,
                        size: row.size,
                        parent_group: row.parent_group,
                        shortcut: copy_opt_bytes(&row.shortcut),
                        label: copy_opt_bytes(&row.label),
                        created_at: row.created_at,
                        updated_at: row.updated_at,
                    };
                    proof {
                        assert(item@ == assemble_item(
                            self@.items[i as int],
                            content_with_id(self@.contents, self@.items[i as int].content_id),
                        ));
                    }
                    let ghost itv = item@;
                    let is_root = item.parent_group.is_none();
                    out_items.push(item);
                    if is_root {
                        roots.push(self.items[i].id);
                    }
                    proof {
                        reveal(Seq::filter);
                        let li0 = loaded_items(self@.contents, self@.items.take(i as int));
                        let li1 = loaded_items(self@.contents, self@.items.take(i + 1));
                        assert(crate::types::items_view(out_items@) =~= li1);
                        assert(li1 =~= li0.push(itv));
                        assert(li1.drop_last() =~= li0);
                        assert(li1.last() == itv);
                        assert(roots@ =~= root_ids(li1));
                    }
                },
                None => {
                    proof {
                        assert(!row_resolves(self@.contents, self@.items[i as int]));
                        assert(crate::types::items_view(out_items@) =~= loaded_items(
                            self@.contents,
                            self@.items.take(i + 1),
                        ));
                        assert(roots@ =~= root_ids(
                            loaded_items(self@.contents, self@.items.take(i + 1)),
                        ));
                    }
                },
            }
            i += 1;
        }
        let mut out_groups: Vec<Group> = Vec::new();
        let mut gi: usize = 0;
        proof {
            assert(groups_view(out_groups@) =~= self@.groups.take(0));
        }
        while gi < self.groups.len()
            invariant
                gi <= self.groups@.len(),
                self@.groups.len() == self.groups@.len(),
                groups_view(out_groups@) == self@.groups.take(gi as int),
            decreases self.groups@.len() - gi,
        {
            let g = self.groups[gi].clone();
            proof {
                assert(g@ == self@.groups[gi as int]);
            }
            out_groups.push(g);
            assert(groups_view(out_groups@) =~= self@.groups.take(gi + 1));
            gi += 1;
        }
        proof {
            assert(self@.items.take(self.items@.len() as int) =~= self@.items);
            assert(self@.groups.take(self.groups@.len() as int) =~= self@.groups);
        }
        WhiteboardState { items: out_items, groups: out_groups, root_items: roots }
    }

    /// Remove a placed item and the content it owns; an id that places
    /// nothing removes nothing. Groups are untouched.
    pub fn delete_whiteboard_item(&mut self, id: u128)
        requires
            store_wf(old(self)@),
        ensures
            final(self)@.groups == old(self)@.groups,
            store_wf(final(self)@),
            (forall|j: int|
                0 <= j < old(self)@.items.len() ==> old(self)@.items[j].id != id) ==> (final(self)@.items == old(self)@.items && final(self)@.contents == old(self)@.contents),
            (exists|j: int| 0 <= j < old(self)@.items.len() && old(self)@.items[j].id == id)
                ==> exists|j: int|
                #![trigger old(self)@.items.remove(j)]
                {
                    let cid = old(self)@.items[j].content_id;
                    0 <= j < old(self)@.items.len() && old(self)@.items[j].id == id && final(self)@.items == old(self)@.items.remove(j) && ((exists|k: int|
                        0 <= k < old(self)@.contents.len() && old(self)@.contents[k].id == cid)
                        ==> exists|k: int|
                        0 <= k < old(self)@.contents.len() && old(self)@.contents[k].id == cid
                            && final(self)@.contents == old(self)@.contents.remove(k)) && ((forall|
                        k: int,
                    |
                        0 <= k < old(self)@.contents.len() ==> old(self)@.contents[k].id != cid)
                        ==> final(self)@.contents == old(self)@.contents)
                },
    {
        let k = match self.find_item_index(id) {
            Some(k) => k,
            None => {
                return ;
            },
        };
        let cid = self.items[k].content_id;
        self.items.remove(k);
        proof {
            assert forall|ii: int|
                0 <= ii < item_rows_view(self.items@).len() implies item_rows_view(
                self.items@,
            )[ii] == old(self)@.items.remove(k as int)[ii] by {
                if ii < k {
                    assert(self.items@[ii] == old(self).items@[ii]);
                } else {
                    assert(self.items@[ii] == old(self).items@[ii + 1]);
                }
            }
            assert(item_rows_view(self.items@) =~= old(self)@.items.remove(k as int));
        }
        match self.find_content_index(cid) {
            Some(ck) => {
                self.contents.remove(ck);
                proof {
                    assert forall|ii: int|
                        0 <= ii < contents_view(self.contents@).len() implies contents_view(
                        self.contents@,
                    )[ii] == old(self)@.contents.remove(ck as int)[ii] by {
                        if ii < ck {
                        } else {
                        }
                    }
                    assert(final(self)@.contents =~= old(self)@.contents.remove(ck as int));
                }
            },
            None => {},
        }
        proof {
            lemma_unique_items_after_remove(old(self)@.items, k as int);
            if final(self)@.contents != old(self)@.contents {
                let ck = choose|c: int|
                    0 <= c < old(self)@.contents.len() && old(self)@.contents[c].id == cid
                        && final(self)@.contents == old(self)@.contents.remove(c);
                lemma_unique_contents_after_remove(old(self)@.contents, ck);
            }
            assert(final(self)@.groups =~= old(self)@.groups);
        }
    }

    /// Remove a group row; nothing cascades, so any children keep their
    /// now-dangling parent reference.
    pub fn delete_group(&mut self, id: u128)
        requires
            store_wf(old(self)@),
        ensures
            final(self)@.contents == old(self)@.contents,
            final(self)@.items == old(self)@.items,
            store_wf(final(self)@),
            (forall|j: int|
                0 <= j < old(self)@.groups.len() ==> old(self)@.groups[j].id != id) ==> final(self)@.groups == old(self)@.groups,
            (exists|j: int| 0 <= j < old(self)@.groups.len() && old(self)@.groups[j].id == id)
                ==> exists|j: int|
                0 <= j < old(self)@.groups.len() && old(self)@.groups[j].id == id && final(self)@.groups == old(self)@.groups.remove(j),
    {
        match self.find_group_index(id) {
            Some(k) => {
                self.groups.remove(k);
                proof {
                    assert forall|ii: int|
                        0 <= ii < groups_view(self.groups@).len() implies groups_view(
                        self.groups@,
                    )[ii] == old(self)@.groups.remove(k as int)[ii] by {
                        if ii < k {
                        } else {
                        }
                    }
                    assert(final(self)@.groups =~= old(self)@.groups.remove(k as int));
                    lemma_unique_groups_after_remove(old(self)@.groups, k as int);
                    assert(final(self)@.contents =~= old(self)@.contents);
                    assert(final(self)@.items =~= old(self)@.items);
                }
            },
            None => {},
        }
    }
}

proof fn lemma_unique_items_after_remove(s: Seq<ItemRowView>, k: int)
    requires
        unique_item_ids(s),
        0 <= k < s.len(),
    ensures
        unique_item_ids(s.remove(k)),
{
    let out = s.remove(k);
    assert forall|i: int, j: int| 0 <= i < j < out.len() implies out[i].id != out[j].id by {
        let i0 = if i < k {
            i
        } else {
            i + 1
        };
        let j0 = if j < k {
            j
        } else {
            j + 1
        };
        assert(out[i] == s[i0] && out[j] == s[j0]);
    }
}

proof fn lemma_unique_contents_after_remove(s: Seq<ContentView>, k: int)
    requires
        unique_content_ids(s),
        0 <= k < s.len(),
    ensures
        unique_content_ids(s.remove(k)),
{
    let out = s.remove(k);
    assert forall|i: int, j: int| 0 <= i < j < out.len() implies out[i].id != out[j].id by {
        let i0 = if i < k {
            i
        } else {
            i + 1
        };
        let j0 = if j < k {
            j
        } else {
            j + 1
        };
        assert(out[i] == s[i0] && out[j] == s[j0]);
    }
}

proof fn lemma_unique_groups_after_remove(s: Seq<GroupView>, k: int)
    requires
        unique_group_ids(s),
        0 <= k < s.len(),
    ensures
        unique_group_ids(s.remove(k)),
{
    let out = s.remove(k);
    assert forall|i: int, j: int| 0 <= i < j < out.len() implies out[i].id != out[j].id by {
        let i0 = if i < k {
            i
        } else {
            i + 1
        };
        let j0 = if j < k {
            j
        } else {
            j + 1
        };
        assert(out[i] == s[i0] && out[j] == s[j0]);
    }
}

// ---------------------------------------------------------------------------
// Row updates.
// ---------------------------------------------------------------------------

impl PersistentStorage {
    /// Set or clear one item's shortcut, stamping its update time. An id
    /// that places nothing changes nothing.
    pub fn update_item_shortcut(&mut self, id: u128, shortcut: Option<Vec<u8>>, now: i64)
        requires
            store_wf(old(self)@),
        ensures
            final(self)@.contents == old(self)@.contents,
            final(self)@.groups == old(self)@.groups,
            store_wf(final(self)@),
            (forall|j: int|
                0 <= j < old(self)@.items.len() ==> old(self)@.items[j].id != id) ==> final(self)@.items == old(self)@.items,
            (exists|j: int| 0 <= j < old(self)@.items.len() && old(self)@.items[j].id == id)
                ==> exists|j: int|
                #![trigger old(self)@.items[j]]
                {
                    let r0 = old(self)@.items[j];
                    0 <= j < old(self)@.items.len() && r0.id == id && final(self)@.items == old(self)@.items.update(
                        j,
                        ItemRowView {
                            shortcut: opt_bytes_view(shortcut),
                            updated_at: now,
                            ..r0
                        },
                    )
                },
    {
        let k = match self.find_item_index(id) {
            Some(k) => k,
            None => {
                return ;
            },
        };
        let old_row = self.items[k].clone();
        let row = ItemRow {
            id: old_row.id,
            content_id: old_row.content_id,
            position: old_row.position,
            size: old_row.size,
            parent_group: old_row.parent_group,
            shortcut,
            label: old_row.label,
            created_at: old_row.created_at,
            updated_at: now,
        };
        self.items.set(k, row);
        proof {
            assert(item_rows_view(self.items@) =~= old(self)@.items.update(
                k as int,
                ItemRowView {
                    shortcut: opt_bytes_view(shortcut),
                    updated_at: now,
                    ..old(self)@.items[k as int]
                },
            ));
            lemma_unique_items_after_same_id_update(old(self)@.items, item_rows_view(self.items@));
            assert(final(self)@.contents =~= old(self)@.contents);
            assert(final(self)@.groups =~= old(self)@.groups);
        }
    }

    /// Set or clear one group's color, stamping its update time. An id
    /// that names no group changes nothing.
    pub fn update_group_color(&mut self, id: u128, color: Option<Vec<u8>>, now: i64)
        requires
            store_wf(old(self)@),
        ensures
            final(self)@.contents == old(self)@.contents,
            final(self)@.items == old(self)@.items,
            store_wf(final(self)@),
            (forall|j: int|
                0 <= j < old(self)@.groups.len() ==> old(self)@.groups[j].id != id) ==> final(self)@.groups == old(self)@.groups,
            (exists|j: int| 0 <= j < old(self)@.groups.len() && old(self)@.groups[j].id == id)
                ==> exists|j: int|
                #![trigger old(self)@.groups[j]]
                {
                    let g0 = old(self)@.groups[j];
                    0 <= j < old(self)@.groups.len() && g0.id == id && final(self)@.groups == old(self)@.groups.update(
                        j,
                        GroupView { color: opt_bytes_view(color), updated_at: now, ..g0 },
                    )
                },
    {
        let k = match self.find_group_index(id) {
            Some(k) => k,
            None => {
                return ;
            },
        };
        let old_group = self.groups[k].clone();
        let g = Group {
            id: old_group.id,
            name: old_group.name,
            position: old_group.position,
            collapsed: old_group.collapsed,
            parent_group: old_group.parent_group,
            children: old_group.children,
            shortcut: old_group.shortcut,
            color,
            created_at: old_group.created_at,
            updated_at: now,
        };
        self.groups.set(k, g);
        proof {
            assert(groups_view(self.groups@) =~= old(self)@.groups.update(
                k as int,
                GroupView {
                    color: opt_bytes_view(color),
                    updated_at: now,
                    ..old(self)@.groups[k as int]
                },
            ));
            lemma_unique_groups_after_same_id_update(old(self)@.groups, groups_view(self.groups@));
            assert(final(self)@.contents =~= old(self)@.contents);
            assert(final(self)@.items =~= old(self)@.items);
        }
    }

    /// Apply a partial update to one placed item: each given field
    /// replaces the stored one, a given empty parent clears it, and the
    /// update time is stamped. An id that places nothing changes nothing.
    pub fn update_whiteboard_item(
        &mut self,
        id: u128,
        position: Option<Position>,
        size: Option<Size>,
        parent_group: Option<Option<u128>>,
        shortcut: Option<Vec<u8>>,
        now: i64,
    )
        requires
            store_wf(old(self)@),
        ensures
            final(self)@.contents == old(self)@.contents,
            final(self)@.groups == old(self)@.groups,
            store_wf(final(self)@),
            (forall|j: int|
                0 <= j < old(self)@.items.len() ==> old(self)@.items[j].id != id) ==> final(self)@.items == old(self)@.items,
            (exists|j: int| 0 <= j < old(self)@.items.len() && old(self)@.items[j].id == id)
                ==> exists|j: int|
                #![trigger old(self)@.items[j]]
                {
                    let r0 = old(self)@.items[j];
                    0 <= j < old(self)@.items.len() && r0.id == id && final(self)@.items == old(self)@.items.update(j, updated_row(r0, position, size, parent_group, opt_bytes_view(shortcut), now))
                },
    {
        let k = match self.find_item_index(id) {
            Some(k) => k,
            None => {
                return ;
            },
        };
        let old_row = self.items[k].clone();
        let new_position = match position {
            Some(p) => p,
            None => old_row.position,
        };
        let new_size = match size {
            Some(s) => s,
            None => old_row.size,
        };
        let new_parent = match parent_group {
            Some(p) => p,
            None => old_row.parent_group,
        };
        let new_shortcut = match shortcut {
            Some(s) => Some(s),
            None => old_row.shortcut,
        };
        let row = ItemRow {
            id: old_row.id,
            content_id: old_row.content_id,
            position: new_position,
            size: new_size,
            parent_group: new_parent,
            shortcut: new_shortcut,
            label: old_row.label,
            created_at: old_row.created_at,
            updated_at: now,
        };
        self.items.set(k, row);
        proof {
            assert(item_rows_view(self.items@) =~= old(self)@.items.update(
                k as int,
                updated_row(
                    old(self)@.items[k as int],
                    position,
                    size,
                    parent_group,
                    opt_bytes_view(shortcut),
                    now,
                ),
            ));
            lemma_unique_items_after_same_id_update(old(self)@.items, item_rows_view(self.items@));
            assert(final(self)@.contents =~= old(self)@.contents);
            assert(final(self)@.groups =~= old(self)@.groups);
        }
    }

    /// Apply a partial update to one group: name, collapsed flag and
    /// position as given, with the update time stamped. An id that names
    /// no group changes nothing.
    pub fn update_group(
        &mut self,
        id: u128,
        name: Option<Vec<u8>>,
        collapsed: Option<bool>,
        position: Option<Position>,
        now: i64,
    )
        requires
            store_wf(old(self)@),
        ensures
            final(self)@.contents == old(self)@.contents,
            final(self)@.items == old(self)@.items,
            store_wf(final(self)@),
            (forall|j: int|
                0 <= j < old(self)@.groups.len() ==> old(self)@.groups[j].id != id) ==> final(self)@.groups == old(self)@.groups,
            (exists|j: int| 0 <= j < old(self)@.groups.len() && old(self)@.groups[j].id == id)
                ==> exists|j: int|
                #![trigger old(self)@.groups[j]]
                {
                    let g0 = old(self)@.groups[j];
                    0 <= j < old(self)@.groups.len() && g0.id == id && final(self)@.groups == old(self)@.groups.update(j, updated_group(g0, opt_bytes_view(name), collapsed, position, now))
                },
    {
        let k = match self.find_group_index(id) {
            Some(k) => k,
            None => {
                return ;
            },
        };
        let old_group = self.groups[k].clone();
        let new_name = match name {
            Some(n) => n,
            None => old_group.name,
        };
        let new_collapsed = match collapsed {
            Some(c) => c,
            None => old_group.collapsed,
        };
        let new_position = match position {
            Some(p) => p,
            None => old_group.position,
        };
        let g = Group {
            id: old_group.id,
            name: new_name,
            position: new_position,
            collapsed: new_collapsed,
            parent_group: old_group.parent_group,
            children: old_group.children,
            shortcut: old_group.shortcut,
            color: old_group.color,
            created_at: old_group.created_at,
            updated_at: now,
        };
        self.groups.set(k, g);
        proof {
            assert(groups_view(self.groups@) =~= old(self)@.groups.update(
                k as int,
                updated_group(
                    old(self)@.groups[k as int],
                    opt_bytes_view(name),
                    collapsed,
                    position,
                    now,
                ),
            ));
            lemma_unique_groups_after_same_id_update(old(self)@.groups, groups_view(self.groups@));
            assert(final(self)@.contents =~= old(self)@.contents);
            assert(final(self)@.items =~= old(self)@.items);
        }
    }
}

/// The row a partial item update produces.
pub open spec fn updated_row(
    r0: ItemRowView,
    position: Option<Position>,
    size: Option<Size>,
    parent_group: Option<Option<u128>>,
    shortcut: Option<Seq<u8>>,
    now: i64,
) -> ItemRowView {
    ItemRowView {
        position: match position {
            Some(p) => p,
            None => r0.position,
        },
        size: match size {
            Some(s) => s,
            None => r0.size,
        },
        parent_group: match parent_group {
            Some(p) => p,
            None => r0.parent_group,
        },
        shortcut: match shortcut {
            Some(s) => Some(s),
            None => r0.shortcut,
        },
        updated_at: now,
        ..r0
    }
}

/// The group a partial group update produces.
pub open spec fn updated_group(
    g0: GroupView,
    name: Option<Seq<u8>>,
    collapsed: Option<bool>,
    position: Option<Position>,
    now: i64,
) -> GroupView {
    GroupView {
        name: match name {
            Some(n) => n,
            None => g0.name,
        },
        collapsed: match collapsed {
            Some(c) => c,
            None => g0.collapsed,
        },
        position: match position {
            Some(p) => p,
            None => g0.position,
        },
        updated_at: now,
        ..g0
    }
}

/// Updating a row in place with its own id keeps ids unique.
proof fn lemma_unique_items_after_same_id_update(s0: Seq<ItemRowView>, s1: Seq<ItemRowView>)
    requires
        unique_item_ids(s0),
        s1.len() == s0.len(),
        forall|j: int| 0 <= j < s0.len() ==> s1[j].id == s0[j].id,
    ensures
        unique_item_ids(s1),
{
}

proof fn lemma_unique_groups_after_same_id_update(s0: Seq<GroupView>, s1: Seq<GroupView>)
    requires
        unique_group_ids(s0),
        s1.len() == s0.len(),
        forall|j: int| 0 <= j < s0.len() ==> s1[j].id == s0[j].id,
    ensures
        unique_group_ids(s1),
{
}

// ---------------------------------------------------------------------------
// Shortcut numbers: decimal parsing and formatting, and sequential
// allocation as one past the highest number in use.
// ---------------------------------------------------------------------------

/// Value of a decimal digit string (most significant first).
pub open spec fn dec_value(s: Seq<u8>) -> int
    decreases s.len(),
{
    if s.len() == 0 {
        0
    } else {
        dec_value(s.drop_last()) * 10 + (s.last() - 0x30)
    }
}

/// Non-empty and made only of decimal digits.
pub open spec fn all_digits(s: Seq<u8>) -> bool {
    s.len() > 0 && (forall|k: int| 0 <= k < s.len() ==> is_digit(s[k]))
}

/// The number a shortcut string denotes, if it is a plain decimal number
/// that fits.
pub open spec fn parse_dec_spec(s: Seq<u8>) -> Option<u64> {
    if all_digits(s) && dec_value(s) <= u64::MAX {
        Some(dec_value(s) as u64)
    } else {
        None
    }
}

proof fn lemma_dec_value_nonneg(s: Seq<u8>)
    requires
        forall|k: int| 0 <= k < s.len() ==> is_digit(s[k]),
    ensures
        dec_value(s) >= 0,
    decreases s.len(),
{
    if s.len() > 0 {
        lemma_dec_value_nonneg(s.drop_last());
    }
}

/// Every extension of a digit prefix has at least the prefix's value.
proof fn lemma_dec_take_le(s: Seq<u8>, i: int)
    requires
        forall|k: int| 0 <= k < s.len() ==> is_digit(s[k]),
        0 <= i <= s.len(),
    ensures
        dec_value(s.take(i)) <= dec_value(s),
    decreases s.len() - i,
{
    if i == s.len() {
        assert(s.take(i) =~= s);
    } else {
        lemma_dec_take_le(s, i + 1);
        assert(s.take(i + 1).drop_last() =~= s.take(i));
        assert(forall|k: int| 0 <= k < s.take(i).len() ==> is_digit(s.take(i)[k]));
        lemma_dec_value_nonneg(s.take(i));
        assert(dec_value(s.take(i + 1)) == dec_value(s.take(i)) * 10 + (s[i] - 0x30));
        assert(dec_value(s.take(i)) * 10 >= dec_value(s.take(i))) by (nonlinear_arith)
            requires
                dec_value(s.take(i)) >= 0,
        ;
    }
}

/// Parse a plain decimal number.
pub fn parse_dec(s: &Vec<u8>) -> (r: Option<u64>)
    ensures
        r == parse_dec_spec(s@),
{
    if s.len() == 0 {
        return None;
    }
    let mut i: usize = 0;
    while i < s.len()
        invariant
            i <= s@.len(),
            forall|k: int| 0 <= k < i ==> is_digit(s@[k]),
        decreases s@.len() - i,
    {
        let b = s[i];
        if !(0x30 <= b && b <= 0x39) {
            return None;
        }
        i += 1;
    }
    let mut acc: u64 = 0;
    let mut j: usize = 0;
    proof {
        assert(s@.take(0) =~= Seq::<u8>::empty());
    }
    while j < s.len()
        invariant
            j <= s@.len(),
            s@.len() > 0,
            forall|k: int| 0 <= k < s@.len() ==> is_digit(s@[k]),
            acc == dec_value(s@.take(j as int)),
        decreases s@.len() - j,
    {
        let b = s[j];
        let d = b - 0x30;
        let wide: u128 = acc as u128 * 10 + d as u128;
        proof {
            assert(s@.take(j + 1).drop_last() =~= s@.take(j as int));
            assert(s@.take(j + 1).last() == s@[j as int]);
        }
        if wide > u64::MAX as u128 {
            proof {
                lemma_dec_take_le(s@, j + 1);
                assert(dec_value(s@) > u64::MAX);
            }
            return None;
        }
        acc = wide as u64;
        j += 1;
    }
    proof {
        assert(s@.take(s@.len() as int) =~= s@);
    }
    Some(acc)
}

/// The decimal digits of a non-negative number, most significant first.
pub open spec fn dec_digits(n: int) -> Seq<u8>
    recommends
        n >= 0,
    decreases n,
{
    if n < 10 {
        seq![(0x30 + n) as u8]
    } else {
        dec_digits(n / 10) + seq![(0x30 + n % 10) as u8]
    }
}

/// Format a number as decimal digits.
pub fn fmt_u64(n: u64) -> (r: Vec<u8>)
    ensures
        r@ == dec_digits(n as int),
    decreases n,
{
    if n < 10 {
        let mut v: Vec<u8> = Vec::new();
        v.push(0x30 + (n as u8));
        proof {
            assert(v@ =~= dec_digits(n as int));
        }
        v
    } else {
        let mut v = fmt_u64(n / 10);
        v.push(0x30 + ((n % 10) as u8));
        proof {
            assert(v@ =~= dec_digits(n as int));
        }
        v
    }
}

/// Formatting then parsing gives the number back.
pub proof fn lemma_parse_of_digits(n: int)
    requires
        0 <= n <= u64::MAX,
    ensures
        parse_dec_spec(dec_digits(n)) == Some(n as u64),
{
    lemma_dec_digits_shape(n);
}

proof fn lemma_dec_digits_shape(n: int)
    requires
        n >= 0,
    ensures
        all_digits(dec_digits(n)),
        dec_value(dec_digits(n)) == n,
    decreases n,
{
    let d = dec_digits(n);
    if n < 10 {
        assert(d.len() == 1);
        assert(d.last() == 0x30 + n);
        assert(d.drop_last() =~= Seq::<u8>::empty());
        assert(dec_value(Seq::<u8>::empty()) == 0);
        assert(dec_value(d) == dec_value(d.drop_last()) * 10 + (d.last() - 0x30));
        assert(dec_value(d) == n);
    } else {
        lemma_dec_digits_shape(n / 10);
        assert(d.len() == dec_digits(n / 10).len() + 1);
        assert(d.drop_last() =~= dec_digits(n / 10));
        assert(d.last() == 0x30 + n % 10);
        assert(dec_value(d) == (n / 10) * 10 + n % 10);
        vstd::arithmetic::div_mod::lemma_fundamental_div_mod(n, 10);
        assert forall|k: int| 0 <= k < d.len() implies is_digit(d[k]) by {
            if k < d.len() - 1 {
                assert(d[k] == dec_digits(n / 10)[k]);
            } else {
                assert(d[k] == d.last());
            }
        }
    }
}

/// The numeric value of an item's shortcut, where it is a plain number.
pub open spec fn item_num(r: ItemRowView) -> Option<u64> {
    match r.shortcut {
        Some(s) => parse_dec_spec(s),
        None => None,
    }
}

/// The numeric value of a group's shortcut, where it is the group prefix
/// byte 'g' followed by a plain number.
pub open spec fn group_num(g: GroupView) -> Option<u64> {
    match g.shortcut {
        Some(s) => if s.len() > 0 && s[0] == 0x67 {
            parse_dec_spec(s.drop_first())
        } else {
            None
        },
        None => None,
    }
}

/// The highest numeric item shortcut in use, if any.
pub open spec fn max_item_num(rows: Seq<ItemRowView>) -> Option<u64>
    decreases rows.len(),
{
    if rows.len() == 0 {
        None
    } else {
        let rest = max_item_num(rows.drop_last());
        match (rest, item_num(rows.last())) {
            (None, x) => x,
            (Some(m), None) => Some(m),
            (Some(m), Some(x)) => Some(
                if x > m {
                    x
                } else {
                    m
                },
            ),
        }
    }
}

/// The highest numeric group shortcut in use, if any.
pub open spec fn max_group_num(gs: Seq<GroupView>) -> Option<u64>
    decreases gs.len(),
{
    if gs.len() == 0 {
        None
    } else {
        let rest = max_group_num(gs.drop_last());
        match (rest, group_num(gs.last())) {
            (None, x) => x,
            (Some(m), None) => Some(m),
            (Some(m), Some(x)) => Some(
                if x > m {
                    x
                } else {
                    m
                },
            ),
        }
    }
}

/// One past a maximum, staying within the type.
pub open spec fn one_past(m: Option<u64>) -> u64 {
    match m {
        None => 1u64,
        Some(v) => if v == u64::MAX {
            v
        } else {
            (v + 1) as u64
        },
    }
}

impl PersistentStorage {
    /// The next item shortcut number: one past the highest numeric item
    /// shortcut in use, or 1 when none is — never a reclaimed gap.
    pub fn get_next_shortcut_number(&self) -> (r: u64)
        ensures
            r == one_past(max_item_num(self@.items)),
    {
        let mut best: Option<u64> = None;
        let mut i: usize = 0;
        proof {
            assert(self@.items.take(0) =~= Seq::<ItemRowView>::empty());
        }
        while i < self.items.len()
            invariant
                i <= self.items@.len(),
                self@.items.len() == self.items@.len(),
                best == max_item_num(self@.items.take(i as int)),
            decreases self.items@.len() - i,
        {
            proof {
                assert(self@.items.take(i + 1).drop_last() =~= self@.items.take(i as int));
                assert(self@.items.take(i + 1).last() == self@.items[i as int]);
            }
            let cur: Option<u64> = match &self.items[i].shortcut {
                Some(s) => parse_dec(s),
                None => None,
            };
            proof {
                assert(cur == item_num(self@.items[i as int]));
            }
            best = match (best, cur) {
                (None, x) => x,
                (Some(m), None) => Some(m),
                (Some(m), Some(x)) => Some(
                    if x > m {
                        x
                    } else {
                        m
                    },
                ),
            };
            i += 1;
        }
        proof {
            assert(self@.items.take(self.items@.len() as int) =~= self@.items);
        }
        match best {
            None => 1,
            Some(m) => if m == u64::MAX {
                m
            } else {
                m + 1
            },
        }
    }

    /// The next group shortcut number in the group namespace ('g' prefix):
    /// one past the highest in use, or 1 when none is.
    pub fn get_next_group_shortcut_number(&self) -> (r: u64)
        ensures
            r == one_past(max_group_num(self@.groups)),
    {
        let mut best: Option<u64> = None;
        let mut i: usize = 0;
        proof {
            assert(self@.groups.take(0) =~= Seq::<GroupView>::empty());
        }
        while i < self.groups.len()
            invariant
                i <= self.groups@.len(),
                self@.groups.len() == self.groups@.len(),
                best == max_group_num(self@.groups.take(i as int)),
            decreases self.groups@.len() - i,
        {
            proof {
                assert(self@.groups.take(i + 1).drop_last() =~= self@.groups.take(i as int));
                assert(self@.groups.take(i + 1).last() == self@.groups[i as int]);
            }
            let cur: Option<u64> = match &self.groups[i].shortcut {
                Some(s) => {
                    if s.len() > 0 && s[0] == 0x67 {
                        let mut rest: Vec<u8> = Vec::new();
                        let mut k: usize = 1;
                        while k < s.len()
                            invariant
                                1 <= k <= s@.len(),
                                rest@ == s@.subrange(1, k as int),
                            decreases s@.len() - k,
                        {
                            rest.push(s[k]);
                            assert(rest@ =~= s@.subrange(1, k + 1));
                            k += 1;
                        }
                        proof {
                            assert(rest@ =~= s@.drop_first());
                        }
                        parse_dec(&rest)
                    } else {
                        None
                    }
                },
                None => None,
            };
            proof {
                assert(cur == group_num(self@.groups[i as int]));
            }
            best = match (best, cur) {
                (None, x) => x,
                (Some(m), None) => Some(m),
                (Some(m), Some(x)) => Some(
                    if x > m {
                        x
                    } else {
                        m
                    },
                ),
            };
            i += 1;
        }
        proof {
            assert(self@.groups.take(self.groups@.len() as int) =~= self@.groups);
        }
        match best {
            None => 1,
            Some(m) => if m == u64::MAX {
                m
            } else {
                m + 1
            },
        }
    }

    /// The shortcut-to-item map: every placed item carrying a shortcut, as
    /// (shortcut, id) pairs in table order.
    pub fn get_items_with_shortcuts(&self) -> (r: Vec<(Vec<u8>, u128)>)
        ensures
            pairs_view(r@) == shortcut_pairs(self@.items),
    {
        let mut r: Vec<(Vec<u8>, u128)> = Vec::new();
        let mut i: usize = 0;
        proof {
            reveal(Seq::filter);
            assert(self@.items.take(0) =~= Seq::<ItemRowView>::empty());
            assert(pairs_view(r@) =~= shortcut_pairs(self@.items.take(0)));
        }
        while i < self.items.len()
            invariant
                i <= self.items@.len(),
                self@.items.len() == self.items@.len(),
                pairs_view(r@) == shortcut_pairs(self@.items.take(i as int)),
            decreases self.items@.len() - i,
        {
            proof {
                reveal(Seq::filter);
                assert(self@.items.take(i + 1).drop_last() =~= self@.items.take(i as int));
                assert(self@.items.take(i + 1).last() == self@.items[i as int]);
            }
            match &self.items[i].shortcut {
                Some(s) => {
                    let pair = (copy_bytes(s), self.items[i].id);
                    proof {
                        assert((pair.0@, pair.1) == (
                            opt_get(self@.items[i as int].shortcut),
                            self@.items[i as int].id,
                        ));
                    }
                    r.push(pair);
                    assert(pairs_view(r@) =~= shortcut_pairs(self@.items.take(i + 1)));
                },
                None => {
                    assert(pairs_view(r@) =~= shortcut_pairs(self@.items.take(i + 1)));
                },
            }
            i += 1;
        }
        proof {
            assert(self@.items.take(self.items@.len() as int) =~= self@.items);
        }
        r
    }
}

/// The byte string inside an optional byte string (empty when none).
pub open spec fn opt_get(o: Option<Seq<u8>>) -> Seq<u8> {
    match o {
        Some(v) => v,
        None => Seq::empty(),
    }
}

/// View of a list of (shortcut, id) pairs.
pub open spec fn pairs_view(v: Seq<(Vec<u8>, u128)>) -> Seq<(Seq<u8>, u128)> {
    v.map_values(|p: (Vec<u8>, u128)| (p.0@, p.1))
}

/// The (shortcut, id) pairs of the rows that carry a shortcut, in order.
pub open spec fn shortcut_pairs(rows: Seq<ItemRowView>) -> Seq<(Seq<u8>, u128)> {
    rows.filter(|r: ItemRowView| r.shortcut is Some).map_values(
        |r: ItemRowView| (opt_get(r.shortcut), r.id),
    )
}

// ---------------------------------------------------------------------------
// Placing new items.
// ---------------------------------------------------------------------------

impl PersistentStorage {
    /// Place a captured content on the whiteboard: a new item at the given
    /// position with the next sequential shortcut, saved at once.
    pub fn add_to_whiteboard(
        &mut self,
        content: ClipboardContent,
        position: Position,
        item_id: u128,
        now: i64,
    ) -> (r: WhiteboardItem)
        requires
            store_wf(old(self)@),
        ensures
            r@ == (ItemView {
                id: item_id,
                content: content@,
                position,
                size: Size {
                    width: crate::types::DEFAULT_ITEM_WIDTH,
                    height: crate::types::DEFAULT_ITEM_HEIGHT,
                },
                parent_group: None,
                shortcut: Some(dec_digits(one_past(max_item_num(old(self)@.items)) as int)),
                label: None,
                created_at: now,
                updated_at: now,
            }),
            final(self)@.contents == upsert_content(old(self)@.contents, content@),
            final(self)@.items == upsert_item(old(self)@.items, row_of_item(r@)),
            final(self)@.groups == old(self)@.groups,
            store_wf(final(self)@),
    {
        let next = self.get_next_shortcut_number();
        let mut item = WhiteboardItem::new(content, position, item_id, now);
        item.shortcut = Some(fmt_u64(next));
        self.save_whiteboard_item(&item);
        item
    }

    /// Place a fresh text item directly on the whiteboard, with the given
    /// parent and label and the next sequential shortcut.
    pub fn add_text_to_whiteboard(
        &mut self,
        text: Vec<u8>,
        position: Position,
        parent_group: Option<u128>,
        label: Option<Vec<u8>>,
        content_id: u128,
        item_id: u128,
        now: i64,
    ) -> (r: WhiteboardItem)
        requires
            store_wf(old(self)@),
        ensures
            r@ == (ItemView {
                id: item_id,
                content: ContentView {
                    id: content_id,
                    category: crate::types::Category::Text,
                    data: crate::types::DataView::Text {
                        text: text@,
                        preview: crate::types::take_chars(
                            text@,
                            crate::types::PREVIEW_MAX_CHARS as nat,
                        ),
                    },
                    copied_at: now,
                    source: None,
                },
                position,
                size: Size {
                    width: crate::types::DEFAULT_ITEM_WIDTH,
                    height: crate::types::DEFAULT_ITEM_HEIGHT,
                },
                parent_group,
                shortcut: Some(dec_digits(one_past(max_item_num(old(self)@.items)) as int)),
                label: opt_bytes_view(label),
                created_at: now,
                updated_at: now,
            }),
            final(self)@.contents == upsert_content(old(self)@.contents, r@.content),
            final(self)@.items == upsert_item(old(self)@.items, row_of_item(r@)),
            final(self)@.groups == old(self)@.groups,
            store_wf(final(self)@),
    {
        let content = crate::types::ClipboardContent::new_text(
            text,
            crate::types::Category::Text,
            content_id,
            now,
        );
        let next = self.get_next_shortcut_number();
        let mut item = WhiteboardItem::new(content, position, item_id, now);
        item.parent_group = parent_group;
        item.label = label;
        item.shortcut = Some(fmt_u64(next));
        self.save_whiteboard_item(&item);
        item
    }
}

// ---------------------------------------------------------------------------
// Recursive tree import.
// ---------------------------------------------------------------------------

/// One item of an imported tree: a shortcut, the text value, and an unused
/// parent name (parent links are assigned by the descent itself).
#[derive(Debug)]
pub struct ImportedItem {
    pub shortcut: Option<Vec<u8>>,
    pub value: Vec<u8>,
    pub parent_group: Option<Vec<u8>>,
}

/// One group of an imported tree, with its items and child groups.
#[derive(Debug)]
pub struct ImportedGroup {
    pub name: Vec<u8>,
    pub shortcut: Option<Vec<u8>>,
    pub color: Option<Vec<u8>>,
    pub parent_group: Option<Vec<u8>>,
    pub items: Option<Vec<ImportedItem>>,
    pub groups: Option<Vec<ImportedGroup>>,
}

/// Bound on how deep an imported tree may nest.
pub const MAX_IMPORT_DEPTH: u32 = 64;

/// The next identifier after `seed`, wrapping at the top of the range.
pub open spec fn wrap_next(seed: u128) -> u128 {
    if seed == u128::MAX {
        0
    } else {
        (seed + 1) as u128
    }
}

/// The content a single imported text item creates.
pub open spec fn imported_content(it: ImportedItem, cid: u128, now: i64) -> ContentView {
    ContentView {
        id: cid,
        category: crate::types::Category::Text,
        data: crate::types::DataView::Text {
            text: it.value@,
            preview: crate::types::take_chars(it.value@, crate::types::PREVIEW_MAX_CHARS as nat),
        },
        copied_at: now,
        source: None,
    }
}

/// The item row a single imported text item creates, placed at the origin
/// inside group `gid`.
pub open spec fn imported_row(it: ImportedItem, cid: u128, iid: u128, gid: u128, now: i64)
    -> ItemRowView {
    ItemRowView {
        id: iid,
        content_id: cid,
        position: Position { x: 0, y: 0 },
        size: Size {
            width: crate::types::DEFAULT_ITEM_WIDTH,
            height: crate::types::DEFAULT_ITEM_HEIGHT,
        },
        parent_group: Some(gid),
        shortcut: opt_bytes_view(it.shortcut),
        label: None,
        created_at: now,
        updated_at: now,
    }
}

/// The group row an imported group creates, placed at the origin under
/// `parent`.
pub open spec fn imported_group_row(
    g: ImportedGroup,
    gid: u128,
    parent: Option<u128>,
    now: i64,
) -> GroupView {
    GroupView {
        id: gid,
        name: g.name@,
        position: Position { x: 0, y: 0 },
        collapsed: false,
        parent_group: parent,
        children: Seq::empty(),
        shortcut: opt_bytes_view(g.shortcut),
        color: opt_bytes_view(g.color),
        created_at: now,
        updated_at: now,
    }
}

/// Importing a run of items into group `gid`: each creates a content and
/// an item row, consuming two identifiers.
pub open spec fn import_items_model(
    v: StoreView,
    items: Seq<ImportedItem>,
    gid: u128,
    seed: u128,
    now: i64,
) -> (StoreView, u128)
    decreases items.len(),
{
    if items.len() == 0 {
        (v, seed)
    } else {
        let it = items[0];
        let cid = seed;
        let iid = wrap_next(seed);
        let v1 = StoreView {
            contents: upsert_content(v.contents, imported_content(it, cid, now)),
            items: upsert_item(v.items, imported_row(it, cid, iid, gid, now)),
            groups: v.groups,
        };
        import_items_model(v1, items.drop_first(), gid, wrap_next(iid), now)
    }
}

/// Importing one group: materialize the group row, then its items, then
/// its child groups depth-first. `None` means the depth bound was struck;
/// what was materialized before that point stays.
pub open spec fn import_group_model(
    v: StoreView,
    g: ImportedGroup,
    parent: Option<u128>,
    seed: u128,
    now: i64,
    depth: nat,
) -> (StoreView, u128, bool)
    decreases depth, 0nat, 0nat,
{
    if depth == 0 {
        (v, seed, false)
    } else {
        let gid = seed;
        let v1 = StoreView {
            contents: v.contents,
            items: v.items,
            groups: upsert_group(v.groups, imported_group_row(g, gid, parent, now)),
        };
        let its = match g.items {
            Some(vv) => vv@,
            None => Seq::<ImportedItem>::empty(),
        };
        let (v2, s2) = import_items_model(v1, its, gid, wrap_next(seed), now);
        let kids = match g.groups {
            Some(vv) => vv@,
            None => Seq::<ImportedGroup>::empty(),
        };
        import_groups_model(v2, kids, Some(gid), s2, now, (depth - 1) as nat)
    }
}

/// Importing a run of sibling groups in declared order.
pub open spec fn import_groups_model(
    v: StoreView,
    gs: Seq<ImportedGroup>,
    parent: Option<u128>,
    seed: u128,
    now: i64,
    depth: nat,
) -> (StoreView, u128, bool)
    decreases depth, gs.len(), 1nat,
{
    if gs.len() == 0 {
        (v, seed, true)
    } else {
        let (v1, s1, ok) = import_group_model(v, gs[0], parent, seed, now, depth);
        if !ok {
            (v1, s1, false)
        } else {
            import_groups_model(v1, gs.drop_first(), parent, s1, now, depth)
        }
    }
}

impl PersistentStorage {
    /// Import the items of one group, from index `idx` on.
    fn import_items_from(
        &mut self,
        items: &Vec<ImportedItem>,
        idx: usize,
        gid: u128,
        seed: u128,
        now: i64,
    ) -> (r: u128)
        requires
            store_wf(old(self)@),
            idx <= items@.len(),
        ensures
            ({
                let (v2, s2) = import_items_model(
                    old(self)@,
                    items@.skip(idx as int),
                    gid,
                    seed,
                    now,
                );
                final(self)@ == v2 && r == s2
            }),
            store_wf(final(self)@),
        decreases items@.len() - idx,
    {
        if idx == items.len() {
            proof {
                assert(items@.skip(idx as int) =~= Seq::<ImportedItem>::empty());
            }
            return seed;
        }
        let it = &items[idx];
        let cid = seed;
        let iid = wrap_next_exec(seed);
        let next = wrap_next_exec(iid);
        let content = crate::types::ClipboardContent::new_text(
            copy_bytes(&it.value),
            crate::types::Category::Text,
            cid,
            now,
        );
        let mut item = WhiteboardItem::new(content, Position { x: 0, y: 0 }, iid, now);
        item.shortcut = copy_opt_bytes(&it.shortcut);
        item.parent_group = Some(gid);
        proof {
            assert(items@.skip(idx as int)[0] == items@[idx as int]);
            assert(items@.skip(idx as int).drop_first() =~= items@.skip(idx + 1));
            assert(item@.content == imported_content(items@[idx as int], cid, now));
            assert(row_of_item(item@) == imported_row(items@[idx as int], cid, iid, gid, now));
        }
        self.save_whiteboard_item(&item);
        self.import_items_from(items, idx + 1, gid, next, now)
    }

    /// Import one group and its subtree, depth-first, creating groups and
    /// text items with sequentially drawn identifiers. Returns the next
    /// identifier, or `TooDeep` when the tree nests past the given bound;
    /// what was materialized before the bound was struck stays saved.
    pub fn import_group_recursive(
        &mut self,
        g: &ImportedGroup,
        parent: Option<u128>,
        seed: u128,
        now: i64,
        depth: u32,
    ) -> (r: Result<u128, StorageError>)
        requires
            store_wf(old(self)@),
        ensures
            ({
                let (v2, s2, ok) = import_group_model(
                    old(self)@,
                    *g,
                    parent,
                    seed,
                    now,
                    depth as nat,
                );
                final(self)@ == v2 && (match r {
                    Ok(s) => ok && s == s2,
                    Err(e) => !ok && e == StorageError::TooDeep,
                })
            }),
            store_wf(final(self)@),
        decreases depth, 0nat, 0nat,
    {
        if depth == 0 {
            return Err(StorageError::TooDeep);
        }
        let gid = seed;
        let group = Group {
            id: gid,
            name: copy_bytes(&g.name),
            position: Position { x: 0, y: 0 },
            collapsed: false,
            parent_group: parent,
            children: Vec::new(),
            shortcut: copy_opt_bytes(&g.shortcut),
            color: copy_opt_bytes(&g.color),
            created_at: now,
            updated_at: now,
        };
        proof {
            assert(group@.children =~= Seq::<u128>::empty());
            assert(group@ == imported_group_row(*g, gid, parent, now));
        }
        self.save_group(&group);
        let after_group = wrap_next_exec(seed);
        let seed2 = match &g.items {
            Some(items) => self.import_items_from(items, 0, gid, after_group, now),
            None => {
                proof {
                    let e = Seq::<ImportedItem>::empty();
                    assert(import_items_model(self@, e, gid, after_group, now) == (
                        self@,
                        after_group,
                    ));
                }
                after_group
            },
        };
        proof {
            match &g.items {
                Some(vv) => {
                    assert(vv@.skip(0) =~= vv@);
                },
                None => {},
            }
        }
        match &g.groups {
            Some(kids) => {
                let r = self.import_groups_from(kids, 0, Some(gid), seed2, now, depth - 1);
                proof {
                    assert(kids@.skip(0) =~= kids@);
                }
                r
            },
            None => {
                proof {
                    let e = Seq::<ImportedGroup>::empty();
                    assert(import_groups_model(self@, e, Some(gid), seed2, now, (depth - 1) as nat)
                        == (self@, seed2, true));
                }
                Ok(seed2)
            },
        }
    }

    /// Import the sibling groups from index `idx` on, in declared order.
    fn import_groups_from(
        &mut self,
        gs: &Vec<ImportedGroup>,
        idx: usize,
        parent: Option<u128>,
        seed: u128,
        now: i64,
        depth: u32,
    ) -> (r: Result<u128, StorageError>)
        requires
            store_wf(old(self)@),
            idx <= gs@.len(),
        ensures
            ({
                let (v2, s2, ok) = import_groups_model(
                    old(self)@,
                    gs@.skip(idx as int),
                    parent,
                    seed,
                    now,
                    depth as nat,
                );
                final(self)@ == v2 && (match r {
                    Ok(s) => ok && s == s2,
                    Err(e) => !ok && e == StorageError::TooDeep,
                })
            }),
            store_wf(final(self)@),
        decreases depth, gs@.len() - idx, 1nat,
    {
        if idx == gs.len() {
            proof {
                assert(gs@.skip(idx as int) =~= Seq::<ImportedGroup>::empty());
            }
            return Ok(seed);
        }
        proof {
            assert(gs@.skip(idx as int)[0] == gs@[idx as int]);
            assert(gs@.skip(idx as int).drop_first() =~= gs@.skip(idx + 1));
        }
        match self.import_group_recursive(&gs[idx], parent, seed, now, depth) {
            Ok(s1) => self.import_groups_from(gs, idx + 1, parent, s1, now, depth),
            Err(e) => Err(e),
        }
    }

    /// Import a whole tree of groups at the root, in declared order, with
    /// the recursion bounded at `MAX_IMPORT_DEPTH`.
    pub fn import_tree(&mut self, gs: &Vec<ImportedGroup>, seed: u128, now: i64) -> (r: Result<
        u128,
        StorageError,
    >)
        requires
            store_wf(old(self)@),
        ensures
            ({
                let (v2, s2, ok) = import_groups_model(
                    old(self)@,
                    gs@,
                    None,
                    seed,
                    now,
                    MAX_IMPORT_DEPTH as nat,
                );
                final(self)@ == v2 && (match r {
                    Ok(s) => ok && s == s2,
                    Err(e) => !ok && e == StorageError::TooDeep,
                })
            }),
            store_wf(final(self)@),
    {
        let r = self.import_groups_from(gs, 0, None, seed, now, MAX_IMPORT_DEPTH);
        proof {
            assert(gs@.skip(0) =~= gs@);
        }
        r
    }
}

/// The identifier after `seed`, wrapping at the top of the range.
pub fn wrap_next_exec(seed: u128) -> (r: u128)
    ensures
        r == wrap_next(seed),
{
    if seed == u128::MAX {
        0
    } else {
        seed + 1
    }
}

// ---------------------------------------------------------------------------
// Recursive tree export.
// ---------------------------------------------------------------------------

/// One exported item: its shortcut, label, and text value (images export
/// as an opaque placeholder, never inline bytes).
#[derive(Debug)]
pub struct ExportedItem {
    pub shortcut: Option<Vec<u8>>,
    pub label: Option<Vec<u8>>,
    pub value: Vec<u8>,
}

/// One exported group with its direct items and child groups.
#[derive(Debug)]
pub struct ExportedGroup {
    pub name: Vec<u8>,
    pub shortcut: Option<Vec<u8>>,
    pub color: Option<Vec<u8>>,
    pub items: Vec<ExportedItem>,
    pub groups: Vec<ExportedGroup>,
}

/// The text an item exports as.
pub open spec fn exported_value(it: ItemView) -> Seq<u8> {
    match it.content.data {
        crate::types::DataView::Text { text, .. } => text,
        crate::types::DataView::Image { .. } => "[image]".spec_bytes(),
    }
}

/// `out` faithfully exports item `it`.
pub open spec fn exported_item_ok(it: ItemView, out: ExportedItem) -> bool {
    opt_bytes_view(out.shortcut) == it.shortcut && opt_bytes_view(out.label) == it.label
        && out.value@ == exported_value(it)
}

/// The items placed directly in group `gid`, in load order.
pub open spec fn group_items_of(items: Seq<ItemView>, gid: u128) -> Seq<ItemView> {
    items.filter(|it: ItemView| it.parent_group == Some(gid))
}

/// The groups whose parent is `parent`, in table order.
pub open spec fn child_groups_of(groups: Seq<GroupView>, parent: Option<u128>) -> Seq<GroupView> {
    groups.filter(|g: GroupView| g.parent_group == parent)
}

/// `out` faithfully exports group `g` of the snapshot `v`, to nesting
/// depth `fuel`: name, shortcut and color carried over, the group's direct
/// items in order, and, while fuel remains, each child group in order.
pub open spec fn export_group_ok(
    v: crate::types::StateView,
    g: GroupView,
    out: ExportedGroup,
    fuel: nat,
) -> bool
    decreases fuel,
{
    &&& out.name@ == g.name
    &&& opt_bytes_view(out.shortcut) == g.shortcut
    &&& opt_bytes_view(out.color) == g.color
    &&& out.items@.len() == group_items_of(v.items, g.id).len()
    &&& (forall|i: int|
        0 <= i < out.items@.len() ==> exported_item_ok(
            group_items_of(v.items, g.id)[i],
            #[trigger] out.items@[i],
        ))
    &&& if fuel == 0 {
        out.groups@.len() == 0
    } else {
        let kids = child_groups_of(v.groups, Some(g.id));
        out.groups@.len() == kids.len() && (forall|i: int|
            0 <= i < kids.len() ==> export_group_ok(
                v,
                kids[i],
                #[trigger] out.groups@[i],
                (fuel - 1) as nat,
            ))
    }
}

/// `out` faithfully exports the snapshot's parentless groups in order.
pub open spec fn export_ok(
    v: crate::types::StateView,
    out: Seq<ExportedGroup>,
    fuel: nat,
) -> bool {
    let roots = child_groups_of(v.groups, None);
    out.len() == roots.len() && (forall|i: int|
        0 <= i < roots.len() ==> export_group_ok(v, roots[i], #[trigger] out[i], fuel))
}

fn opt_u128_eq(a: Option<u128>, b: Option<u128>) -> (r: bool)
    ensures
        r == (a == b),
{
    match (a, b) {
        (Some(x), Some(y)) => x == y,
        (None, None) => true,
        _ => false,
    }
}

/// Export the direct items of group `gid` from a snapshot.
fn export_group_items(state: &WhiteboardState, gid: u128) -> (r: Vec<ExportedItem>)
    ensures
        r@.len() == group_items_of(state@.items, gid).len(),
        forall|i: int|
            0 <= i < r@.len() ==> exported_item_ok(
                group_items_of(state@.items, gid)[i],
                #[trigger] r@[i],
            ),
{
    let mut r: Vec<ExportedItem> = Vec::new();
    let mut i: usize = 0;
    proof {
        reveal(Seq::filter);
        assert(crate::types::items_view(state.items@).take(0) =~= Seq::<ItemView>::empty());
    }
    while i < state.items.len()
        invariant
            i <= state.items@.len(),
            state@.items.len() == state.items@.len(),
            r@.len() == group_items_of(state@.items.take(i as int), gid).len(),
            forall|k: int|
                0 <= k < r@.len() ==> exported_item_ok(
                    group_items_of(state@.items.take(i as int), gid)[k],
                    #[trigger] r@[k],
                ),
        decreases state.items@.len() - i,
    {
        proof {
            reveal(Seq::filter);
            assert(state@.items.take(i + 1).drop_last() =~= state@.items.take(i as int));
            assert(state@.items.take(i + 1).last() == state@.items[i as int]);
        }
        let item = &state.items[i];
        if opt_u128_eq(item.parent_group, Some(gid)) {
            let value = match &item.content.data {
                crate::types::ClipboardData::Text { text, .. } => copy_bytes(text),
                crate::types::ClipboardData::Image { .. } => vstd::slice::slice_to_vec(
                    "[image]".as_bytes(),
                ),
            };
            let out = ExportedItem {
                shortcut: copy_opt_bytes(&item.shortcut),
                label: copy_opt_bytes(&item.label),
                value,
            };
            proof {
                assert(exported_item_ok(state@.items[i as int], out));
            }
            r.push(out);
            proof {
                assert(group_items_of(state@.items.take(i + 1), gid) =~= group_items_of(
                    state@.items.take(i as int),
                    gid,
                ).push(state@.items[i as int]));
            }
        } else {
            proof {
                assert(group_items_of(state@.items.take(i + 1), gid) =~= group_items_of(
                    state@.items.take(i as int),
                    gid,
                ));
            }
        }
        i += 1;
    }
    proof {
        assert(state@.items.take(state.items@.len() as int) =~= state@.items);
    }
    r
}

/// Export one group of a snapshot: its direct items, and its child groups
/// recursively while fuel remains.
pub fn export_group_recursive(state: &WhiteboardState, group: &Group, fuel: u32) -> (r:
    ExportedGroup)
    ensures
        export_group_ok(state@, group@, r, fuel as nat),
    decreases fuel,
{
    let items = export_group_items(state, group.id);
    let mut kids: Vec<ExportedGroup> = Vec::new();
    if fuel > 0 {
        let mut i: usize = 0;
        proof {
            reveal(Seq::filter);
            assert(state@.groups.take(0) =~= Seq::<GroupView>::empty());
        }
        while i < state.groups.len()
            invariant
                i <= state.groups@.len(),
                state@.groups.len() == state.groups@.len(),
                fuel > 0,
                kids@.len() == child_groups_of(state@.groups.take(i as int), Some(group@.id)).len(),
                forall|k: int|
                    0 <= k < kids@.len() ==> export_group_ok(
                        state@,
                        child_groups_of(state@.groups.take(i as int), Some(group@.id))[k],
                        #[trigger] kids@[k],
                        (fuel - 1) as nat,
                    ),
            decreases state.groups@.len() - i,
        {
            proof {
                reveal(Seq::filter);
                assert(state@.groups.take(i + 1).drop_last() =~= state@.groups.take(i as int));
                assert(state@.groups.take(i + 1).last() == state@.groups[i as int]);
            }
            let child = &state.groups[i];
            let child_parent = child.parent_group;
            if opt_u128_eq(child_parent, Some(group.id)) {
                let sub = export_group_recursive(state, child, fuel - 1);
                kids.push(sub);
                proof {
                    assert(child_groups_of(state@.groups.take(i + 1), Some(group@.id))
                        =~= child_groups_of(state@.groups.take(i as int), Some(group@.id)).push(
                        state@.groups[i as int],
                    ));
                }
            } else {
                proof {
                    assert(child_groups_of(state@.groups.take(i + 1), Some(group@.id))
                        =~= child_groups_of(state@.groups.take(i as int), Some(group@.id)));
                }
            }
            i += 1;
        }
        proof {
            assert(state@.groups.take(state.groups@.len() as int) =~= state@.groups);
        }
    }
    ExportedGroup {
        name: copy_bytes(&group.name),
        shortcut: copy_opt_bytes(&group.shortcut),
        color: copy_opt_bytes(&group.color),
        items,
        groups: kids,
    }
}

/// Export the whole whiteboard: every parentless group with its subtree,
/// nesting bounded by the number of groups in the snapshot (enough for
/// any true forest).
pub fn export_tree(state: &WhiteboardState) -> (r: Vec<ExportedGroup>)
    requires
        state@.groups.len() <= u32::MAX,
    ensures
        export_ok(state@, r@, state@.groups.len() as nat),
{
    let fuel: u32 = state.groups.len() as u32;
    let mut r: Vec<ExportedGroup> = Vec::new();
    let mut i: usize = 0;
    proof {
        reveal(Seq::filter);
        assert(state@.groups.take(0) =~= Seq::<GroupView>::empty());
    }
    while i < state.groups.len()
        invariant
            i <= state.groups@.len(),
            state@.groups.len() == state.groups@.len(),
            fuel == state@.groups.len(),
            r@.len() == child_groups_of(state@.groups.take(i as int), None).len(),
            forall|k: int|
                0 <= k < r@.len() ==> export_group_ok(
                    state@,
                    child_groups_of(state@.groups.take(i as int), None)[k],
                    #[trigger] r@[k],
                    fuel as nat,
                ),
        decreases state.groups@.len() - i,
    {
        proof {
            reveal(Seq::filter);
            assert(state@.groups.take(i + 1).drop_last() =~= state@.groups.take(i as int));
            assert(state@.groups.take(i + 1).last() == state@.groups[i as int]);
        }
        let g = &state.groups[i];
        if g.parent_group.is_none() {
            let sub = export_group_recursive(state, g, fuel);
            r.push(sub);
            proof {
                assert(child_groups_of(state@.groups.take(i + 1), None) =~= child_groups_of(
                    state@.groups.take(i as int),
                    None,
                ).push(state@.groups[i as int]));
            }
        } else {
            proof {
                assert(child_groups_of(state@.groups.take(i + 1), None) =~= child_groups_of(
                    state@.groups.take(i as int),
                    None,
                ));
            }
        }
        i += 1;
    }
    proof {
        assert(state@.groups.take(state.groups@.len() as int) =~= state@.groups);
    }
    r
}

// ---------------------------------------------------------------------------
// Round-trip laws: what a save makes loadable, and what a delete removes.
// ---------------------------------------------------------------------------

/// Every element of a filtered row sequence is one of the rows.
proof fn lemma_filter_rows_elem(
    rows: Seq<ItemRowView>,
    pred: spec_fn(ItemRowView) -> bool,
    m: int,
)
    requires
        0 <= m < rows.filter(pred).len(),
    ensures
        exists|j: int| 0 <= j < rows.len() && rows[j] == #[trigger] rows.filter(pred)[m],
    decreases rows.len(),
{
    reveal(Seq::filter);
    if rows.len() > 0 {
        let rest = rows.drop_last();
        if pred(rows.last()) && m == rows.filter(pred).len() - 1 {
            assert(rows[rows.len() - 1] == rows.filter(pred)[m]);
        } else {
            lemma_filter_rows_elem(rest, pred, m);
            let j = choose|j: int| 0 <= j < rest.len() && rest[j] == rest.filter(pred)[m];
            assert(rows[j] == rows.filter(pred)[m]);
        }
    }
}

/// Saving an item and loading the whiteboard returns that item with
/// identical field values: the saved content and row reassemble to the
/// very item that was saved.
pub proof fn lemma_saved_item_loads(v: StoreView, it: ItemView)
    requires
        store_wf(v),
    ensures
        ({
            let v2 = StoreView {
                contents: upsert_content(v.contents, it.content),
                items: upsert_item(v.items, row_of_item(it)),
                groups: v.groups,
            };
            exists|k: int|
                0 <= k < loaded_items(v2.contents, v2.items).len() && loaded_items(
                    v2.contents,
                    v2.items,
                )[k] == it
        }),
{
    let v2 = StoreView {
        contents: upsert_content(v.contents, it.content),
        items: upsert_item(v.items, row_of_item(it)),
        groups: v.groups,
    };
    lemma_upsert_content_ids(v.contents, it.content);
    lemma_upsert_item_ids(v.items, row_of_item(it));
    let jc = choose|j: int|
        0 <= j < v2.contents.len() && v2.contents[j] == it.content && v2.contents[j].id
            == it.content.id;
    let jr = choose|j: int|
        0 <= j < v2.items.len() && v2.items[j] == row_of_item(it) && v2.items[j].id
            == row_of_item(it).id;
    let pred = |row: ItemRowView| row_resolves(v2.contents, row);
    assert(row_resolves(v2.contents, v2.items[jr]));
    v2.items.lemma_filter_contains(pred, jr);
    let filtered = v2.items.filter(pred);
    assert(filtered.contains(v2.items[jr]));
    let k = choose|k: int| 0 <= k < filtered.len() && filtered[k] == v2.items[jr];
    assert(content_with_id(v2.contents, it.content.id) == it.content) by {
        let j2 = choose|j: int|
            0 <= j < v2.contents.len() && v2.contents[j].id == it.content.id;
        assert(v2.contents[jc].id == it.content.id);
        if j2 != jc {
            assert(v2.contents[j2].id != v2.contents[jc].id);
        }
    }
    assert(loaded_items(v2.contents, v2.items)[k] == assemble_item(
        filtered[k],
        content_with_id(v2.contents, filtered[k].content_id),
    ));
    assert(assemble_item(row_of_item(it), it.content) == it);
}

/// Deleting an item removes both the item row and its owned content: a
/// later load contains neither.
pub proof fn lemma_deleted_item_gone(v: StoreView, j: int, k: int)
    requires
        store_wf(v),
        0 <= j < v.items.len(),
        0 <= k < v.contents.len(),
        v.contents[k].id == v.items[j].content_id,
    ensures
        ({
            let v2 = StoreView {
                contents: v.contents.remove(k),
                items: v.items.remove(j),
                groups: v.groups,
            };
            &&& forall|m: int|
                0 <= m < v2.items.len() ==> (#[trigger] v2.items[m]).id != v.items[j].id
            &&& forall|m: int|
                0 <= m < v2.contents.len() ==> (#[trigger] v2.contents[m]).id
                    != v.items[j].content_id
            &&& forall|m: int|
                0 <= m < loaded_items(v2.contents, v2.items).len() ==> (#[trigger] loaded_items(
                    v2.contents,
                    v2.items,
                )[m]).id != v.items[j].id
        }),
{
    let v2 = StoreView {
        contents: v.contents.remove(k),
        items: v.items.remove(j),
        groups: v.groups,
    };
    assert forall|m: int| 0 <= m < v2.items.len() implies (#[trigger] v2.items[m]).id
        != v.items[j].id by {
        if m < j {
            assert(v2.items[m] == v.items[m]);
        } else {
            assert(v2.items[m] == v.items[m + 1]);
        }
    }
    assert forall|m: int| 0 <= m < v2.contents.len() implies (#[trigger] v2.contents[m]).id
        != v.items[j].content_id by {
        if m < k {
            assert(v2.contents[m] == v.contents[m]);
        } else {
            assert(v2.contents[m] == v.contents[m + 1]);
        }
    }
    let pred = |row: ItemRowView| row_resolves(v2.contents, row);
    assert forall|m: int| 0 <= m < loaded_items(v2.contents, v2.items).len() implies (
    #[trigger] loaded_items(v2.contents, v2.items)[m]).id != v.items[j].id by {
        lemma_filter_rows_elem(v2.items, pred, m);
        let j2 = choose|jj: int|
            0 <= jj < v2.items.len() && v2.items[jj] == v2.items.filter(pred)[m];
        assert(loaded_items(v2.contents, v2.items)[m].id == v2.items.filter(pred)[m].id);
        assert(v2.items[j2].id != v.items[j].id);
    }
}

} // verus!
