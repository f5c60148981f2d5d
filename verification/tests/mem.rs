use bits::mem::{small_bytes_text, MemStat, Page, Place, Store, MIN_PAGE};
use std::sync::{Arc, RwLock};

#[test]
pub fn basic_store() {
    let mut store = Store::with_page(4096);

    let value = store.store(format!("abc123"));
    assert_eq!("abc123", store.get(value));

    let value = store.str("123");
    assert_eq!("123", store.get_str(value));

    let value = store.str("abcdef");
    assert_eq!("abcdef", store.get_str(value));

    drop(store);
}

#[test]
fn store_values() {
    let mut store = Store::with_page(1024);
    let mut values = Vec::new();
    for i in 1..2048usize {
        let item = store.store(i);
        values.push(item);
    }

    for (n, i) in values.iter().enumerate() {
        assert_eq!(*store.get(*i), n + 1);
    }
}

#[derive(Debug, PartialEq)]
enum Item {
    Size(usize),
    Byte(u8),
    Short(u16),
    Unit(()),
}

#[test]
fn store_interleaved() {
    let mut arena = Store::with_page(512);
    let mut v0 = Vec::new();
    let mut v1 = Vec::new();
    let mut v2 = Vec::new();
    let mut v3 = Vec::new();
    for i in 1..1024usize {
        v0.push(arena.store(Item::Size(i)));
        v1.push(arena.store(Item::Byte((i % 255) as u8)));
        v2.push(arena.store(Item::Short(i as u16)));
        v3.push(arena.store(Item::Unit(())));
    }

    for (n, i) in v0.iter().enumerate() {
        let expected = n + 1;
        assert_eq!(*arena.get(*i), Item::Size(expected));
        assert_eq!(*arena.get(v1[n]), Item::Byte((expected % 255) as u8));
        assert_eq!(*arena.get(v2[n]), Item::Short(expected as u16));
    }

    let places = arena.places();
    let mut last = places[3];
    for place in places.iter().skip(4).step_by(4) {
        assert!(*place != last);
        last = *place;
    }
}

#[derive(Debug)]
struct DropCounter(Arc<RwLock<usize>>);

impl DropCounter {
    pub fn new(value: Arc<RwLock<usize>>) -> Self {
        {
            let mut value = value.write().unwrap();
            *value += 1;
        }
        Self(value)
    }
}

impl Drop for DropCounter {
    fn drop(&mut self) {
        let mut value = self.0.write().unwrap();
        *value -= 1;
    }
}

#[test]
fn store_drops() {
    let counter: Arc<RwLock<usize>> = Default::default();

    let mut arena = Store::with_page(256);
    let count = 10000;

    for _ in 0..count {
        arena.store(DropCounter::new(counter.clone()));
    }

    assert_eq!(*counter.read().unwrap(), count);
    drop(arena);
    assert_eq!(*counter.read().unwrap(), 0);
}

#[test]
fn store_big_alloc() {
    let counter: Arc<RwLock<usize>> = Default::default();

    let mut arena = Store::with_page(1);
    let count = 10000;

    for _ in 0..count {
        arena.store(DropCounter::new(counter.clone()));
    }

    assert_eq!(*counter.read().unwrap(), count);
    drop(arena);
    assert_eq!(*counter.read().unwrap(), 0);
}

#[test]
pub fn store_chunk() {
    let mut arena: Store<i32> = Store::new();
    let value = arena.chunk_from_slice(&[1, 2, 3, 4, 5]);
    assert_eq!(5, value.len());
    assert_eq!(&[1, 2, 3, 4, 5], value.as_slice());
}

#[test]
fn pages_and_big_allocations() {
    let mut store: Store<u8> = Store::with_page(1);
    assert_eq!(store.pages(), 1);
    assert_eq!(store.stats().size(), MIN_PAGE);
    // larger than 1024 / 8 bytes: outside the pages
    assert_eq!(store.allocate(129, 1), Place::Big { size: 129 });
    assert_eq!(store.stats().size(), MIN_PAGE + 129);
    assert_eq!(store.stats().used(), 129);
    // aligned on the page
    assert_eq!(store.allocate(3, 1), Place::Page { page: 0, offset: 0, len: 3, align: 1 });
    assert_eq!(store.allocate(8, 8), Place::Page { page: 0, offset: 8, len: 8, align: 8 });
    assert_eq!(store.allocate(0, 1), Place::Page { page: 0, offset: 16, len: 1, align: 1 });
    assert_eq!(store.used(), 11);
    // fill the page: the next allocation goes on a new page
    for _ in 0..8 {
        store.allocate(128, 1);
    }
    assert_eq!(store.pages(), 2);
    assert_eq!(store.stats().size(), 2 * MIN_PAGE + 129);
    assert_eq!(store.stats().max_size(), 2 * MIN_PAGE + 129);
}

#[test]
fn page_alloc_aligns_and_fails_when_full() {
    let mut page = Page::new(16);
    assert_eq!(page.allocate(1, 1), Some(0));
    assert_eq!(page.allocate(4, 4), Some(4));
    assert_eq!(page.allocate(8, 8), Some(8));
    assert_eq!(page.allocate(1, 1), None);
}

#[test]
fn stats_track_maximum() {
    let mut s = MemStat::new();
    s.add(100, 10);
    s.sub(60, 5);
    s.add(10, 1);
    assert_eq!(s.size(), 50);
    assert_eq!(s.used(), 6);
    assert_eq!(s.max_size(), 100);
    assert_eq!(s.max_used(), 10);
}

#[test]
fn store_slice() {
    let counter: Arc<RwLock<usize>> = Default::default();

    let mut arena = Store::with_page(17);
    let count = 10000;
    let get_counter = || *counter.read().unwrap();

    let mut source_items = Vec::new();
    for i in 0..count {
        source_items.push((i * 10, DropCounter::new(counter.clone())));
    }

    assert_eq!(get_counter(), count);

    let handle = arena.slice(source_items);
    let items = arena.get_slice(handle);
    assert_eq!(items.len(), count);
    assert_eq!(get_counter(), count);

    for (i, (it, _)) in items.iter().enumerate() {
        assert_eq!(it, &(i * 10));
    }

    drop(arena);
    assert_eq!(get_counter(), 0);
}

#[test]
fn byte_counts_as_text() {
    assert_eq!(small_bytes_text(0).as_deref(), Some("0 bytes"));
    assert_eq!(small_bytes_text(1023).as_deref(), Some("1023 bytes"));
    assert_eq!(small_bytes_text(1024).as_deref(), Some("1 KB"));
    assert_eq!(small_bytes_text(5000).as_deref(), Some("4 KB"));
    assert_eq!(small_bytes_text(1024 * 1024 - 1).as_deref(), Some("1023 KB"));
    assert_eq!(small_bytes_text(1024 * 1024), None);
}
