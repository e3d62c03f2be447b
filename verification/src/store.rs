//! The two stores of the exchange: what phones sent to this computer
//! (received items) and what this computer offers them (shared items). Each
//! keeps the newest item first and at most `MAX_STORE_ITEMS` items.

use vstd::prelude::*;
use crate::text::same;
use crate::text::chars_of;
use crate::ids::{generate_id, id_at, is_hex_id};
use vstd::wrapping::u64_specs::wrapping_add;

verus! {

/// How many items each store keeps.
pub const MAX_STORE_ITEMS: usize = 50;

/// Something a phone sent: a note or a file.
#[derive(Debug, Clone)]
pub struct ReceivedItem {
    pub id: String,
    pub name: String,
    pub size: usize,
    pub category: String,
    pub target: String,
    pub mimetype: String,
    pub preview: String,
    pub timestamp: u64,
    pub sender_ip: String,
    pub data: Vec<u8>,
}

/// A file this computer offers to phones.
#[derive(Debug, Clone)]
pub struct SharedItem {
    pub id: String,
    pub name: String,
    pub size: usize,
    pub mimetype: String,
    pub timestamp: u64,
    pub data: Vec<u8>,
}

/// What a received item holds.
pub struct ReceivedView {
    pub id: Seq<char>,
    pub name: Seq<char>,
    pub size: usize,
    pub category: Seq<char>,
    pub target: Seq<char>,
    pub mimetype: Seq<char>,
    pub preview: Seq<char>,
    pub timestamp: u64,
    pub sender_ip: Seq<char>,
    pub data: Seq<u8>,
}

/// What a shared item holds.
pub struct SharedView {
    pub id: Seq<char>,
    pub name: Seq<char>,
    pub size: usize,
    pub mimetype: Seq<char>,
    pub timestamp: u64,
    pub data: Seq<u8>,
}

impl View for ReceivedItem {
    type V = ReceivedView;

    open spec fn view(&self) -> ReceivedView {
        ReceivedView {
            id: self.id@,
            name: self.name@,
            size: self.size,
            category: self.category@,
            target: self.target@,
            mimetype: self.mimetype@,
            preview: self.preview@,
            timestamp: self.timestamp,
            sender_ip: self.sender_ip@,
            data: self.data@,
        }
    }
}

impl View for SharedItem {
    type V = SharedView;

    open spec fn view(&self) -> SharedView {
        SharedView {
            id: self.id@,
            name: self.name@,
            size: self.size,
            mimetype: self.mimetype@,
            timestamp: self.timestamp,
            data: self.data@,
        }
    }
}

/// A received item as listed to the page: everything but its bytes.
#[derive(Debug)]
pub struct ReceivedSummary {
    pub id: String,
    pub name: String,
    pub size: usize,
    pub category: String,
    pub target: String,
    pub mimetype: String,
    pub preview: String,
    pub timestamp: u64,
    pub sender_ip: String,
}

/// A shared item as listed to phones: everything but its bytes.
#[derive(Debug)]
pub struct SharedSummary {
    pub id: String,
    pub name: String,
    pub size: usize,
    pub mimetype: String,
    pub timestamp: u64,
}

impl View for ReceivedSummary {
    type V = ReceivedView;

    /// The listed fields, with no bytes.
    open spec fn view(&self) -> ReceivedView {
        ReceivedView {
            id: self.id@,
            name: self.name@,
            size: self.size,
            category: self.category@,
            target: self.target@,
            mimetype: self.mimetype@,
            preview: self.preview@,
            timestamp: self.timestamp,
            sender_ip: self.sender_ip@,
            data: Seq::<u8>::empty(),
        }
    }
}

impl View for SharedSummary {
    type V = SharedView;

    /// The listed fields, with no bytes.
    open spec fn view(&self) -> SharedView {
        SharedView {
            id: self.id@,
            name: self.name@,
            size: self.size,
            mimetype: self.mimetype@,
            timestamp: self.timestamp,
            data: Seq::<u8>::empty(),
        }
    }
}

/// A received item without its bytes.
pub open spec fn received_listing(v: ReceivedView) -> ReceivedView {
    ReceivedView {
        id: v.id,
        name: v.name,
        size: v.size,
        category: v.category,
        target: v.target,
        mimetype: v.mimetype,
        preview: v.preview,
        timestamp: v.timestamp,
        sender_ip: v.sender_ip,
        data: Seq::<u8>::empty(),
    }
}

/// A shared item without its bytes.
pub open spec fn shared_listing(v: SharedView) -> SharedView {
    SharedView {
        id: v.id,
        name: v.name,
        size: v.size,
        mimetype: v.mimetype,
        timestamp: v.timestamp,
        data: Seq::<u8>::empty(),
    }
}

pub open spec fn received_views(v: Seq<ReceivedItem>) -> Seq<ReceivedView> {
    v.map_values(|x: ReceivedItem| x@)
}

pub open spec fn shared_views(v: Seq<SharedItem>) -> Seq<SharedView> {
    v.map_values(|x: SharedItem| x@)
}

pub open spec fn received_summary_views(v: Seq<ReceivedSummary>) -> Seq<ReceivedView> {
    v.map_values(|x: ReceivedSummary| x@)
}

pub open spec fn shared_summary_views(v: Seq<SharedSummary>) -> Seq<SharedView> {
    v.map_values(|x: SharedSummary| x@)
}

/// A store after items were put in front one after another (the last one
/// put ends up first).
pub open spec fn prepend_all<A>(added: Seq<A>, old: Seq<A>) -> Seq<A>
    decreases added.len(),
{
    if added.len() == 0 {
        old
    } else {
        seq![added.last()] + prepend_all(added.drop_last(), old)
    }
}

/// A store cut back to its capacity, dropping the oldest items.
pub open spec fn capped<A>(s: Seq<A>) -> Seq<A> {
    if s.len() > MAX_STORE_ITEMS {
        s.take(MAX_STORE_ITEMS as int)
    } else {
        s
    }
}

/// Position of the first item with the given id.
pub open spec fn first_with_id_from(ids: Seq<Seq<char>>, id: Seq<char>, i: int) -> Option<int>
    decreases ids.len() - i,
{
    if i < 0 || i >= ids.len() {
        None
    } else if ids[i] == id {
        Some(i)
    } else {
        first_with_id_from(ids, id, i + 1)
    }
}

pub open spec fn first_with_id(ids: Seq<Seq<char>>, id: Seq<char>) -> Option<int> {
    first_with_id_from(ids, id, 0)
}

pub open spec fn received_ids(v: Seq<ReceivedView>) -> Seq<Seq<char>> {
    v.map_values(|x: ReceivedView| x.id)
}

pub open spec fn shared_ids(v: Seq<SharedView>) -> Seq<Seq<char>> {
    v.map_values(|x: SharedView| x.id)
}

pub proof fn lemma_first_with_id_from(ids: Seq<Seq<char>>, id: Seq<char>, i: int)
    ensures
        first_with_id_from(ids, id, i) matches Some(j) ==> i <= j < ids.len() && ids[j] == id,
    decreases ids.len() - i,
{
    if !(i < 0 || i >= ids.len()) && ids[i] != id {
        lemma_first_with_id_from(ids, id, i + 1);
    }
}

/// The state of the exchange: both stores and the id counter.
#[derive(Debug)]
pub struct FileExchange {
    pub(crate) received: Vec<ReceivedItem>,
    pub(crate) shared: Vec<SharedItem>,
    pub(crate) next_id: u64,
}

impl FileExchange {
    /// The received items, newest first.
    pub closed spec fn received_items(&self) -> Seq<ReceivedView> {
        received_views(self.received@)
    }

    /// The shared items, newest first.
    pub closed spec fn shared_items(&self) -> Seq<SharedView> {
        shared_views(self.shared@)
    }

    /// The counter value the next id is made from.
    pub closed spec fn id_counter(&self) -> u64 {
        self.next_id
    }

    /// Neither store holds more than its capacity.
    pub open spec fn wf(&self) -> bool {
        &&& self.received_items().len() <= MAX_STORE_ITEMS
        &&& self.shared_items().len() <= MAX_STORE_ITEMS
    }

    /// An empty exchange whose counter starts at 1.
    pub fn new() -> (r: FileExchange)
        ensures
            r.wf(),
            r.received_items() == Seq::<ReceivedView>::empty(),
            r.shared_items() == Seq::<SharedView>::empty(),
            r.id_counter() == 1,
    {
        let r = FileExchange { received: Vec::new(), shared: Vec::new(), next_id: 1 };
        assert(r.received_items() =~= Seq::<ReceivedView>::empty());
        assert(r.shared_items() =~= Seq::<SharedView>::empty());
        r
    }

    /// Number of received items.
    pub fn received_count(&self) -> (n: usize)
        ensures
            n == self.received_items().len(),
    {
        self.received.len()
    }

    /// Number of shared items.
    pub fn shared_count(&self) -> (n: usize)
        ensures
            n == self.shared_items().len(),
    {
        self.shared.len()
    }

    /// Position of the first received item with the given id.
    pub fn find_received(&self, id: &str) -> (r: Option<usize>)
        ensures
            match r {
                Some(i) => first_with_id(received_ids(self.received_items()), id@) == Some(
                    i as int,
                ),
                None => first_with_id(received_ids(self.received_items()), id@) is None,
            },
    {
        let key = chars_of(id);
        let ghost ids = received_ids(self.received_items());
        let mut i: usize = 0;
        while i < self.received.len()
            invariant
                i <= self.received.len(),
                ids == received_ids(self.received_items()),
                key@ == id@,
                first_with_id(ids, id@) == first_with_id_from(ids, id@, i as int),
            decreases self.received.len() - i,
        {
            assert(ids[i as int] == self.received@[i as int].id@);
            if same(&chars_of(self.received[i].id.as_str()), &key) {
                return Some(i);
            }
            i += 1;
        }
        None
    }

    /// Position of the first shared item with the given id.
    pub fn find_shared(&self, id: &str) -> (r: Option<usize>)
        ensures
            match r {
                Some(i) => first_with_id(shared_ids(self.shared_items()), id@) == Some(i as int),
                None => first_with_id(shared_ids(self.shared_items()), id@) is None,
            },
    {
        let key = chars_of(id);
        let ghost ids = shared_ids(self.shared_items());
        let mut i: usize = 0;
        while i < self.shared.len()
            invariant
                i <= self.shared.len(),
                ids == shared_ids(self.shared_items()),
                key@ == id@,
                first_with_id(ids, id@) == first_with_id_from(ids, id@, i as int),
            decreases self.shared.len() - i,
        {
            assert(ids[i as int] == self.shared@[i as int].id@);
            if same(&chars_of(self.shared[i].id.as_str()), &key) {
                return Some(i);
            }
            i += 1;
        }
        None
    }

    /// The received items as listed to the page, newest first.
    pub fn received_summaries(&self) -> (r: Vec<ReceivedSummary>)
        ensures
            received_summary_views(r@) == self.received_items().map_values(
                |v: ReceivedView| received_listing(v),
            ),
    {
        let mut r: Vec<ReceivedSummary> = Vec::new();
        let mut i: usize = 0;
        while i < self.received.len()
            invariant
                i <= self.received.len(),
                received_summary_views(r@) == self.received_items().take(i as int).map_values(
                    |v: ReceivedView| received_listing(v),
                ),
            decreases self.received.len() - i,
        {
            let it = &self.received[i];
            let s = ReceivedSummary {
                id: it.id.clone(),
                name: it.name.clone(),
                size: it.size,
                category: it.category.clone(),
                target: it.target.clone(),
                mimetype: it.mimetype.clone(),
                preview: it.preview.clone(),
                timestamp: it.timestamp,
                sender_ip: it.sender_ip.clone(),
            };
            let ghost before = received_summary_views(r@);
            r.push(s);
            assert(received_summary_views(r@) =~= before.push(s@));
            assert(self.received_items().take(i + 1) =~= self.received_items().take(i as int).push(
                it@,
            ));
            assert(received_summary_views(r@) =~= self.received_items().take(i + 1).map_values(
                |v: ReceivedView| received_listing(v),
            ));
            i += 1;
        }
        assert(self.received_items().take(self.received.len() as int) =~= self.received_items());
        r
    }

    /// The shared items as listed to phones, newest first.
    pub fn shared_summaries(&self) -> (r: Vec<SharedSummary>)
        ensures
            shared_summary_views(r@) == self.shared_items().map_values(
                |v: SharedView| shared_listing(v),
            ),
    {
        let mut r: Vec<SharedSummary> = Vec::new();
        let mut i: usize = 0;
        while i < self.shared.len()
            invariant
                i <= self.shared.len(),
                shared_summary_views(r@) == self.shared_items().take(i as int).map_values(
                    |v: SharedView| shared_listing(v),
                ),
            decreases self.shared.len() - i,
        {
            let it = &self.shared[i];
            let s = SharedSummary {
                id: it.id.clone(),
                name: it.name.clone(),
                size: it.size,
                mimetype: it.mimetype.clone(),
                timestamp: it.timestamp,
            };
            let ghost before = shared_summary_views(r@);
            r.push(s);
            assert(shared_summary_views(r@) =~= before.push(s@));
            assert(self.shared_items().take(i + 1) =~= self.shared_items().take(i as int).push(
                it@,
            ));
            assert(shared_summary_views(r@) =~= self.shared_items().take(i + 1).map_values(
                |v: SharedView| shared_listing(v),
            ));
            i += 1;
        }
        assert(self.shared_items().take(self.shared.len() as int) =~= self.shared_items());
        r
    }

    /// The bytes, content type and name of the `i`-th received item.
    pub fn received_entry(&self, i: usize) -> (r: (Vec<u8>, String, String))
        requires
            i < self.received_items().len(),
        ensures
            r.0@ == self.received_items()[i as int].data,
            r.1@ == self.received_items()[i as int].mimetype,
            r.2@ == self.received_items()[i as int].name,
    {
        let it = &self.received[i];
        (vstd::slice::slice_to_vec(it.data.as_slice()), it.mimetype.clone(), it.name.clone())
    }

    /// The bytes, content type and name of the `i`-th shared item.
    pub fn shared_entry(&self, i: usize) -> (r: (Vec<u8>, String, String))
        requires
            i < self.shared_items().len(),
        ensures
            r.0@ == self.shared_items()[i as int].data,
            r.1@ == self.shared_items()[i as int].mimetype,
            r.2@ == self.shared_items()[i as int].name,
    {
        let it = &self.shared[i];
        (vstd::slice::slice_to_vec(it.data.as_slice()), it.mimetype.clone(), it.name.clone())
    }

    /// Puts a received item in front (the store may then exceed its
    /// capacity until `cap_received`).
    pub(crate) fn put_received(&mut self, item: ReceivedItem)
        ensures
            final(self).received_items() == seq![item@] + old(self).received_items(),
            final(self).shared_items() == old(self).shared_items(),
            final(self).id_counter() == old(self).id_counter(),
    {
        let ghost before = self.received_items();
        self.received.insert(0, item);
        assert(self.received_items() =~= seq![item@] + before);
    }

    /// Drops the oldest received items beyond the capacity.
    pub(crate) fn cap_received(&mut self)
        ensures
            final(self).received_items() == capped(old(self).received_items()),
            final(self).shared_items() == old(self).shared_items(),
            final(self).id_counter() == old(self).id_counter(),
            final(self).received_items().len() <= MAX_STORE_ITEMS,
    {
        let ghost before = self.received_items();
        if self.received.len() > MAX_STORE_ITEMS {
            self.received.truncate(MAX_STORE_ITEMS);
            assert(self.received_items() =~= before.take(MAX_STORE_ITEMS as int));
        }
    }

    /// Puts a shared item in front and drops the oldest beyond the capacity.
    pub(crate) fn put_shared(&mut self, item: SharedItem)
        ensures
            final(self).shared_items() == capped(seq![item@] + old(self).shared_items()),
            final(self).received_items() == old(self).received_items(),
            final(self).id_counter() == old(self).id_counter(),
            final(self).shared_items().len() <= MAX_STORE_ITEMS,
    {
        let ghost before = self.shared_items();
        self.shared.insert(0, item);
        assert(self.shared_items() =~= seq![item@] + before);
        let ghost added = self.shared_items();
        if self.shared.len() > MAX_STORE_ITEMS {
            self.shared.truncate(MAX_STORE_ITEMS);
            assert(self.shared_items() =~= added.take(MAX_STORE_ITEMS as int));
        }
    }

    /// A fresh id from the counter, which moves on by one.
    pub(crate) fn fresh_id(&mut self) -> (id: String)
        ensures
            final(self).id_counter() == wrapping_add(old(self).id_counter(), 1),
            id_at(id@, old(self).id_counter()),
            is_hex_id(id@),
            final(self).received_items() == old(self).received_items(),
            final(self).shared_items() == old(self).shared_items(),
    {
        generate_id(&mut self.next_id)
    }

    /// Empties the received store.
    pub(crate) fn clear_received(&mut self)
        ensures
            final(self).received_items() == Seq::<ReceivedView>::empty(),
            final(self).shared_items() == old(self).shared_items(),
            final(self).id_counter() == old(self).id_counter(),
    {
        self.received.clear();
        assert(self.received_items() =~= Seq::<ReceivedView>::empty());
    }
}

} // verus!
