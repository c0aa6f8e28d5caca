use patent_webrender::resource::Resource;

fn res(vram: i32, down: i32, up: i32) -> Resource {
    Resource { vram_gbytes: vram, network_download_gbps: down, network_upload_gbps: up }
}

#[test]
fn as_vector_orders_vram_download_upload() {
    assert_eq!(res(384, 10, 7).as_vector(), [384, 10, 7]);
}

#[test]
fn from_vector_reads_vram_download_upload() {
    assert_eq!(Resource::from_vector(&[5, 6, 7]), res(5, 6, 7));
}

#[test]
fn vector_roundtrips() {
    let r = res(-3, 0, 12);
    assert_eq!(Resource::from_vector(&r.as_vector()), r);
    let v = [1, -2, 3];
    assert_eq!(Resource::from_vector(&v).as_vector(), v);
}

#[test]
fn add_is_componentwise() {
    assert_eq!(res(1, 2, 3).add(&res(10, 20, 30)), res(11, 22, 33));
}

#[test]
fn sub_is_componentwise() {
    assert_eq!(res(10, 10, 384).sub(&res(4, 1, 500)), res(6, 9, -116));
}

#[test]
fn add_scaled_multiplies_the_right_hand_side() {
    assert_eq!(res(1, 1, 1).add_scaled(&res(2, 3, 4), 3), res(7, 10, 13));
}

#[test]
fn add_then_sub_cancels() {
    let a = res(7, -4, 100);
    let b = res(-9, 12, 3);
    assert_eq!(a.add(&b).sub(&b), a);
    assert_eq!(a.sub(&b).add(&b), a);
}

#[test]
fn default_is_zero() {
    assert_eq!(Resource::default(), res(0, 0, 0));
    assert_eq!(Resource::zero(), res(0, 0, 0));
}

#[test]
fn nonnegative_needs_every_component() {
    assert!(res(0, 0, 0).is_nonnegative());
    assert!(res(3, 2, 1).is_nonnegative());
    assert!(!res(3, -1, 1).is_nonnegative());
    assert!(!res(-1, 0, 0).is_nonnegative());
    assert!(!res(0, 0, -5).is_nonnegative());
}
