use simple_calc::math_operations::{millis_or_zero, nanos_or_zero, CpuSnapshot, RandomEngine};

fn snapshot(rflags: u64) -> CpuSnapshot {
    let mut registers = [0u64; 16];
    let mut xmm = [0u64; 16];
    for i in 0..16 {
        registers[i] = (i as u64) * 0x1111 + 7;
        xmm[i] = (i as u64) * 3 + 1;
    }
    CpuSnapshot { rflags, registers, xmm }
}

#[test]
fn mixing_is_exact() {
    let engine = RandomEngine { app_start_ms: 1_700_000_000_000 };
    assert_eq!(
        engine.mix(1, &snapshot(0), 1_700_000_000_000_000_000),
        -67973350352945506984657119033362677760
    );
    assert_eq!(
        engine.mix(3, &snapshot(64), 1_700_000_000_000_000_123),
        -165705465850986309466404088768426876672
    );
}

#[test]
fn mixing_depends_on_its_inputs() {
    let engine = RandomEngine { app_start_ms: 1_700_000_000_000 };
    let a = engine.mix(1, &snapshot(0), 1_000);
    assert_eq!(a, engine.mix(1, &snapshot(0), 1_000));
    assert_ne!(a, engine.mix(2, &snapshot(0), 1_000));
    assert_ne!(a, engine.mix(1, &snapshot(0), 1_001));
}

#[test]
fn engine_starts_at_the_current_time() {
    let engine = RandomEngine::new();
    // Later than 2020-01-01 in milliseconds since the Unix epoch.
    assert!(engine.app_start_ms > 1_577_836_800_000);
}

#[test]
fn clock_readings_count_whole_units() {
    let d = std::time::Duration::new(1, 500_000_007);
    assert_eq!(millis_or_zero(&Ok(d)), 1_500);
    assert_eq!(nanos_or_zero(&Ok(d)), 1_500_000_007);
    let before = std::time::UNIX_EPOCH.duration_since(std::time::SystemTime::now());
    assert!(before.is_err());
    assert_eq!(millis_or_zero(&before), 0);
    assert_eq!(nanos_or_zero(&before), 0);
}
