use winehouse::scene::SceneObjects;

fn ids<T>(s: &SceneObjects<T>) -> Vec<u64> {
    s.as_slice().iter().map(|slot| slot.id).collect()
}

#[test]
fn ids_start_at_one_and_increase() {
    let mut s: SceneObjects<&str> = SceneObjects::new();
    let a = s.reserve_id();
    s.push(a, "Cube");
    let b = s.reserve_id();
    s.push(b, "Other");
    assert_eq!((a, b), (1, 2));
    assert_eq!(ids(&s), vec![1, 2]);
    assert_eq!(s.len(), 2);
}

#[test]
fn a_reserved_id_is_consumed_even_when_nothing_is_added() {
    let mut s: SceneObjects<u8> = SceneObjects::new();
    let a = s.reserve_id();
    s.push(a, 10);
    let failed = s.reserve_id();
    let c = s.reserve_id();
    s.push(c, 30);
    assert_eq!(failed, 2);
    assert_eq!(c, 3);
    assert_eq!(ids(&s), vec![1, 3]);
    assert!(!s.is_fresh_id(1));
    assert!(s.is_fresh_id(2));
    assert!(!s.is_fresh_id(4));
    assert!(!s.is_fresh_id(0));
}

#[test]
fn despawn_removes_the_object_and_keeps_the_order_of_the_rest() {
    let mut s: SceneObjects<char> = SceneObjects::new();
    for ch in ['a', 'b', 'c', 'd'] {
        let id = s.reserve_id();
        s.push(id, ch);
    }
    s.despawn(2);
    assert_eq!(ids(&s), vec![1, 3, 4]);
    let payloads: Vec<char> = s.as_slice().iter().map(|slot| slot.payload).collect();
    assert_eq!(payloads, vec!['a', 'c', 'd']);
    assert_eq!(s.position(2), None);
    s.despawn(99);
    assert_eq!(ids(&s), vec![1, 3, 4]);
    let next = s.reserve_id();
    assert_eq!(next, 5);
}

#[test]
fn position_and_payload_mut_update_one_object() {
    let mut s: SceneObjects<i32> = SceneObjects::new();
    for v in [10, 20, 30] {
        let id = s.reserve_id();
        s.push(id, v);
    }
    let i = s.position(2).unwrap();
    assert_eq!(i, 1);
    *s.payload_mut(i) = 21;
    let payloads: Vec<i32> = s.as_slice().iter().map(|slot| slot.payload).collect();
    assert_eq!(payloads, vec![10, 21, 30]);
    assert_eq!(s.position(7), None);
}
