use hwboard::growable::{next_power_of_two, BufferCapacity, UploadPlan};

#[test]
fn next_power_of_two_values() {
    assert_eq!(next_power_of_two(0), 1);
    assert_eq!(next_power_of_two(1), 1);
    assert_eq!(next_power_of_two(3), 4);
    assert_eq!(next_power_of_two(512), 512);
    assert_eq!(next_power_of_two(513), 1024);
    assert_eq!(next_power_of_two(1 << 63), 1 << 63);
    for n in 1..5000u64 {
        assert_eq!(next_power_of_two(n), n.next_power_of_two());
    }
}

#[test]
fn capacity_starts_at_least_one() {
    let c = BufferCapacity::new(0, 8);
    assert_eq!(c.capacity_elements(), 1);
    assert_eq!(c.byte_size(), 8);
    let c = BufferCapacity::new(512, 8);
    assert_eq!(c.byte_size(), 4096);
}

#[test]
fn full_upload_grows_only_when_needed() {
    let mut c = BufferCapacity::new(128, 4);
    assert_eq!(c.plan_full(100), (false, UploadPlan::Full));
    assert_eq!(c.capacity_elements(), 128);
    assert_eq!(c.plan_full(0), (false, UploadPlan::Nothing));
    assert_eq!(c.plan_full(300), (true, UploadPlan::Full));
    assert_eq!(c.capacity_elements(), 512);
}

#[test]
fn suffix_upload_sends_only_new_part() {
    let mut c = BufferCapacity::new(8, 4);
    assert_eq!(c.plan_suffix(5, 0), (false, UploadPlan::Suffix(0), 5));
    assert_eq!(c.plan_suffix(5, 5), (false, UploadPlan::Nothing, 5));
    assert_eq!(c.plan_suffix(7, 5), (false, UploadPlan::Suffix(5), 7));
    assert_eq!(c.plan_suffix(9, 7), (true, UploadPlan::Full, 9));
    assert_eq!(c.capacity_elements(), 16);
}
