use crate::outside::{current_time, fresh_id};
use crate::time::Timestamp;
use vstd::prelude::*;

verus! {

/// One representation of a copied thing: a content-type tag and the raw bytes.
pub struct Data {
    pub type_tag: String,
    pub data: Vec<u8>,
}

/// What a [`Data`] is, mathematically.
pub struct DataView {
    pub type_tag: Seq<char>,
    pub data: Seq<u8>,
}

impl View for Data {
    type V = DataView;

    open spec fn view(&self) -> DataView {
        DataView { type_tag: self.type_tag@, data: self.data@ }
    }
}

impl Data {
    /// An entry of the type and bytes given.
    pub fn new(type_tag: String, data: Vec<u8>) -> (d: Data)
        ensures
            d@ == (DataView { type_tag: type_tag@, data: data@ }),
    {
        Data { type_tag, data }
    }
}

impl Clone for Data {
    fn clone(&self) -> (d: Data)
        ensures
            d@ == self@,
    {
        Data { type_tag: self.type_tag.clone(), data: self.data.clone() }
    }
}

/// One item of a capture: the representations it was offered in, in order.
pub struct Item {
    pub data_list: Vec<Data>,
}

impl View for Item {
    type V = Seq<DataView>;

    open spec fn view(&self) -> Seq<DataView> {
        Seq::new(self.data_list@.len(), |i: int| self.data_list@[i]@)
    }
}

impl Item {
    /// An item without entries.
    pub fn new() -> (item: Item)
        ensures
            item@ == Seq::<DataView>::empty(),
    {
        let item = Item { data_list: Vec::new() };
        assert(item@ =~= Seq::<DataView>::empty());
        item
    }

    /// Appends `data` to the entries.
    pub fn add_data(&mut self, data: Data)
        ensures
            final(self)@ == old(self)@.push(data@),
    {
        self.data_list.push(data);
        assert(self@ =~= old(self)@.push(data@));
    }
}

impl Clone for Item {
    fn clone(&self) -> (item: Item)
        ensures
            item@ == self@,
    {
        let mut item = Item::new();
        let mut i: usize = 0;
        while i < self.data_list.len()
            invariant
                i <= self.data_list@.len(),
                item@ == self@.take(i as int),
            decreases self.data_list@.len() - i,
        {
            item.add_data(self.data_list[i].clone());
            assert(self@.take(i as int).push(self@[i as int]) =~= self@.take(i + 1));
            i += 1;
        }
        assert(self@.take(i as int) =~= self@);
        item
    }
}

/// One capture: a sequence of items, each a sequence of typed byte payloads.
pub struct Event {
    pub items: Vec<Item>,
}

impl View for Event {
    type V = Seq<Seq<DataView>>;

    open spec fn view(&self) -> Seq<Seq<DataView>> {
        Seq::new(self.items@.len(), |i: int| self.items@[i]@)
    }
}

/// The capture `event` after `entry` was added to its last item; an event
/// without items stays as it is.
pub open spec fn with_data(event: Seq<Seq<DataView>>, entry: DataView) -> Seq<Seq<DataView>> {
    if event.len() == 0 {
        event
    } else {
        event.update(event.len() - 1, event.last().push(entry))
    }
}

impl Event {
    /// An event without items.
    pub fn new() -> (event: Event)
        ensures
            event@ == Seq::<Seq<DataView>>::empty(),
    {
        let event = Event { items: Vec::new() };
        assert(event@ =~= Seq::<Seq<DataView>>::empty());
        event
    }

    /// Appends an empty item.
    pub fn new_item(&mut self)
        ensures
            final(self)@ == old(self)@.push(Seq::<DataView>::empty()),
    {
        self.items.push(Item::new());
        assert(self@ =~= old(self)@.push(Seq::<DataView>::empty()));
    }

    /// Appends `item` as it is.
    pub fn push_item(&mut self, item: Item)
        ensures
            final(self)@ == old(self)@.push(item@),
    {
        self.items.push(item);
        assert(self@ =~= old(self)@.push(item@));
    }

    /// Appends an entry to the item added last. Without any item there is
    /// nowhere to put the entry, and the event is left unchanged.
    pub fn add_data(&mut self, type_tag: String, data: Vec<u8>)
        ensures
            final(self)@ == with_data(old(self)@, DataView { type_tag: type_tag@, data: data@ }),
    {
        let entry = Data::new(type_tag, data);
        match self.items.pop() {
            Some(mut item) => {
                item.add_data(entry);
                self.items.push(item);
                assert(self@ =~= with_data(old(self)@, entry@));
            },
            None => {},
        }
    }
}

impl Clone for Event {
    fn clone(&self) -> (event: Event)
        ensures
            event@ == self@,
    {
        let mut event = Event { items: Vec::new() };
        let mut i: usize = 0;
        while i < self.items.len()
            invariant
                i <= self.items@.len(),
                event@ =~= self@.take(i as int),
            decreases self.items@.len() - i,
        {
            let ghost before = event@;
            event.items.push(self.items[i].clone());
            assert(event@ =~= before.push(self@[i as int]));
            assert(self@.take(i as int).push(self@[i as int]) =~= self@.take(i + 1));
            i += 1;
        }
        assert(self@.take(i as int) =~= self@);
        event
    }
}

/// A single piece of copied text with the identifier and time it was given
/// when it was captured.
pub struct CopyEvent {
    pub id: String,
    pub content: String,
    pub timestamp: Timestamp,
    pub content_type: String,
}

impl CopyEvent {
    /// Wraps `content` under the identifier and at the time given.
    pub fn with_identity(id: String, timestamp: Timestamp, content: String, content_type: String) -> (event: CopyEvent)
        ensures
            event.id@ == id@,
            event.timestamp == timestamp,
            event.content@ == content@,
            event.content_type@ == content_type@,
    {
        CopyEvent { id, content, timestamp, content_type }
    }

    /// Wraps `content` under a fresh identifier and the current time.
    pub fn new(content: String, content_type: String) -> (event: CopyEvent)
        ensures
            event.id@.len() == 36,
            event.content@ == content@,
            event.content_type@ == content_type@,
    {
        CopyEvent::with_identity(fresh_id(), current_time(), content, content_type)
    }
}

impl Clone for CopyEvent {
    fn clone(&self) -> (event: CopyEvent)
        ensures
            event.id@ == self.id@,
            event.content@ == self.content@,
            event.timestamp == self.timestamp,
            event.content_type@ == self.content_type@,
    {
        CopyEvent {
            id: self.id.clone(),
            content: self.content.clone(),
            timestamp: self.timestamp,
            content_type: self.content_type.clone(),
        }
    }
}

} // verus!
