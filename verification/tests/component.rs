use winehouse::component::ComponentId;

#[test]
fn component_ids_tell_types_apart() {
    assert_eq!(ComponentId::of::<u32>(), ComponentId::of::<u32>());
    assert_ne!(ComponentId::of::<u32>(), ComponentId::of::<String>());
    assert_ne!(ComponentId::of::<u32>(), ComponentId::of::<i32>());
    let a = ComponentId::of::<Vec<u8>>();
    let b = a;
    assert!(a == b);
    assert!(!(a == ComponentId::of::<Vec<u16>>()));
}
