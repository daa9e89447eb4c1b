use lancy::support::slotmap::Key;
use lancy::support::slotmap::PrimaryMap;
use lancy::support::slotmap::SecondaryMap;
use lancy::support::slotmap::SecondaryMapExt;

#[test]
fn test_primary_map() {
    let mut map: PrimaryMap<u32, &str> = PrimaryMap::new();
    let key: u32 = map.insert("value");
    assert_eq!(*map.get(key), "value");
}

#[test]
fn test_secondary_map() {
    let mut map: SecondaryMap<u32, &str> = SecondaryMap::with_default(10);
    let key = u32::new(0);
    map.set(key, "value");
    assert_eq!(*map.get(key), "value");
}

#[test]
fn test_primary_map_iter() {
    let mut map: PrimaryMap<u32, &str> = PrimaryMap::new();
    map.insert("value1");
    map.insert("value2");

    let mut iter = map.iter();
    assert_eq!(iter.next(), Some((u32::new(0), &"value1")));
    assert_eq!(iter.next(), Some((u32::new(1), &"value2")));
    assert_eq!(iter.next(), None);
}
