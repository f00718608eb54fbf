use perf_rs::pmu::Pmu;

#[test]
fn decode_selector_register_vector() {
    // selector register 0x07030401: byte 0 is the version, byte 1 the
    // counters per logical processor, byte 2 the counter width
    let p = Pmu::from_registers(0x0703_0401, 0);
    assert_eq!(p.version, 0x01);
    assert_eq!(p.pmc_per_lp, 0x04);
    assert_eq!(p.pmc_width, 0x03);
}

#[test]
fn decode_fixed_counter_register() {
    // low five bits are the fixed-counter count, the next byte the width
    let edx: u32 = (6 << 5) | 5;
    let p = Pmu::from_registers(0, edx);
    assert_eq!(p.num_counters, 5);
    assert_eq!(p.counter_width, 6);
}

#[test]
fn decode_masks_unrelated_bits() {
    let p = Pmu::from_registers(0xffff_ffff, 0xffff_ffff);
    assert_eq!(p.version, 0xff);
    assert_eq!(p.pmc_per_lp, 0xff);
    assert_eq!(p.pmc_width, 0xff);
    assert_eq!(p.num_counters, 0x1f);
    assert_eq!(p.counter_width, 0xff);
}
