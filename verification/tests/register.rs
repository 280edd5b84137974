use executorch_kernels::register::{
    optimized_kernels, register, register_all, register_if_absent, KernelEntry, KernelKey,
    KernelRegistry,
};
use executorch_kernels::tensor::Error;

fn fallback(name: &str, op: u64) -> KernelEntry {
    KernelEntry::new_fallback(name.as_bytes().to_vec(), op)
}

#[test]
fn first_registration_is_quiet_and_keeps_optimized_precedence() {
    let mut reg = KernelRegistry::new(2000);
    let optimized = fallback("test::quiet_registration.out", 1);
    let portable = fallback("test::quiet_registration.out", 2);

    assert_eq!(register_if_absent(&mut reg, &optimized), Error::Success);
    assert_eq!(register_if_absent(&mut reg, &portable), Error::Success);

    assert_eq!(reg.size(), 1);
    assert_eq!(reg.op_at(0), 1);
    assert_eq!(reg.name_at(0), &b"test::quiet_registration.out".to_vec());
    assert_eq!(reg.key_at(0), KernelKey::Fallback);
}

const OPTIMIZED: [&str; 23] = [
    "aten::sum.IntList_out",
    "aten::native_layer_norm.out",
    "aten::_log_softmax.out",
    "aten::elu.out",
    "aten::exp.out",
    "aten::gelu.out",
    "aten::add.out",
    "aten::add.Scalar_out",
    "aten::sub.out",
    "aten::sub.Scalar_out",
    "aten::mul.out",
    "aten::mul.Scalar_out",
    "aten::div.out",
    "aten::div.Scalar_out",
    "aten::mm.out",
    "aten::bmm.out",
    "aten::linear.out",
    "aten::le.Tensor_out",
    "aten::le.Scalar_out",
    "aten::where.self_out",
    "aten::grid_sampler_2d.out",
    "aten::_fft_r2c.out",
    "aten::_fft_c2r.out",
];

#[test]
fn optimized_kernels_lists_the_optimized_ops() {
    let ks = optimized_kernels();
    assert_eq!(ks.len(), 23);
    for (i, k) in ks.iter().enumerate() {
        assert_eq!(k.name, OPTIMIZED[i].as_bytes().to_vec());
        assert_eq!(k.op, i as u64);
        assert_eq!(k.key, KernelKey::Fallback);
    }
}

#[test]
fn register_puts_optimized_before_portable_and_is_idempotent() {
    let mut reg = KernelRegistry::new(100);
    let portable = vec![
        fallback("aten::mm.out", 100),
        fallback("aten::abs.out", 101),
        fallback("aten::bmm.out", 102),
    ];
    assert_eq!(register(&mut reg, &portable), Error::Success);
    assert_eq!(reg.size(), 24);
    assert_eq!(reg.name_at(14), &b"aten::mm.out".to_vec());
    assert_eq!(reg.op_at(14), 14);
    assert_eq!(reg.op_at(15), 15);
    assert_eq!(reg.name_at(23), &b"aten::abs.out".to_vec());
    assert_eq!(reg.op_at(23), 101);

    // Registering again changes nothing.
    assert_eq!(register(&mut reg, &portable), Error::Success);
    assert_eq!(reg.size(), 24);
    assert_eq!(reg.op_at(14), 14);
}

#[test]
fn register_keeps_a_kernel_registered_before() {
    let mut reg = KernelRegistry::new(100);
    assert_eq!(register_if_absent(&mut reg, &fallback("aten::mm.out", 5)), Error::Success);
    assert_eq!(register(&mut reg, &Vec::new()), Error::Success);
    assert_eq!(reg.size(), 23);
    assert_eq!(reg.op_at(0), 5);
    for i in 0..reg.size() {
        if i > 0 {
            assert_ne!(reg.name_at(i), &b"aten::mm.out".to_vec());
        }
    }
}

#[test]
fn register_stops_when_the_table_is_full() {
    let mut reg = KernelRegistry::new(1);
    assert_eq!(register(&mut reg, &Vec::new()), Error::RegistrationExceedingMaxKernels);
    assert_eq!(reg.size(), 1);
    assert_eq!(reg.op_at(0), 0);
    assert_eq!(reg.name_at(0), &b"aten::sum.IntList_out".to_vec());
}

#[test]
fn register_all_adds_every_kernel_or_none() {
    let mut reg = KernelRegistry::new(23);
    assert_eq!(register_all(&mut reg), Error::Success);
    assert_eq!(reg.size(), 23);
    for i in 0..23 {
        assert_eq!(reg.name_at(i), &OPTIMIZED[i].as_bytes().to_vec());
        assert_eq!(reg.op_at(i), i as u64);
        assert_eq!(reg.key_at(i), KernelKey::Fallback);
    }

    let mut small = KernelRegistry::new(22);
    assert_eq!(register_all(&mut small), Error::RegistrationExceedingMaxKernels);
    assert_eq!(small.size(), 0);
}

#[test]
fn has_fallback_kernel_ignores_specific_keys() {
    let mut reg = KernelRegistry::new(4);
    let specific = KernelEntry { name: b"aten::mm.out".to_vec(), op: 7, key: KernelKey::Specific(3) };
    assert_eq!(register_if_absent(&mut reg, &specific), Error::Success);
    assert!(!reg.has_fallback_kernel(&b"aten::mm.out".to_vec()));
    assert_eq!(register_if_absent(&mut reg, &fallback("aten::mm.out", 8)), Error::Success);
    assert_eq!(reg.size(), 2);
    assert!(reg.has_fallback_kernel(&b"aten::mm.out".to_vec()));
}
