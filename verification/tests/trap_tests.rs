use kernel_core::trap::PrivilegeMode;
use kernel_core::trap::SSTATUS_SPIE;
use kernel_core::trap::SSTATUS_SPP;
use kernel_core::trap::Sstatus;
use kernel_core::trap::TrapContext;

#[test]
fn app_init_context_initial_state() {
    let cx = TrapContext::app_init_context(
        0x1000,
        0x2000_0000,
        (8u64 << 60) | 0x80300,
        0x8050_0000,
        0x8020_4000,
        Sstatus::from_bits(0),
    );
    assert_eq!(cx.x[2], 0x2000_0000);
    assert_eq!(cx.sepc, 0x1000);
    // will return to user privilege
    assert_eq!(cx.sstatus.bits & SSTATUS_SPP, 0);
    // interrupts enabled on return
    assert_ne!(cx.sstatus.bits & SSTATUS_SPIE, 0);
    assert_eq!(cx.kernel_satp, (8u64 << 60) | 0x80300);
    assert_eq!(cx.kernel_sp, 0x8050_0000);
    assert_eq!(cx.trap_handler, 0x8020_4000);
    for (i, r) in cx.x.iter().enumerate() {
        if i != 2 {
            assert_eq!(*r, 0);
        }
    }
}

#[test]
fn app_init_context_forces_fields_from_any_snapshot() {
    // a snapshot that says supervisor with interrupts off is overridden
    let cx = TrapContext::app_init_context(
        0x1000,
        0x2000_0000,
        0,
        0,
        0,
        Sstatus::from_bits(SSTATUS_SPP),
    );
    assert_eq!(cx.sstatus.bits & SSTATUS_SPP, 0);
    assert_ne!(cx.sstatus.bits & SSTATUS_SPIE, 0);
    // unrelated bits of the snapshot survive the read-modify-write
    let cx2 = TrapContext::app_init_context(0, 0, 0, 0, 0, Sstatus::from_bits(0x4_0002));
    assert_eq!(cx2.sstatus.bits, 0x4_0002 | SSTATUS_SPIE);
}

#[test]
fn set_sp_writes_register_slot_two() {
    let mut cx = TrapContext::app_init_context(0, 0, 0, 0, 0, Sstatus::from_bits(0));
    cx.set_sp(0xdead_0000);
    assert_eq!(cx.x[2], 0xdead_0000);
    assert_eq!(cx.x[1], 0);
    assert_eq!(cx.x[3], 0);
}

#[test]
fn sstatus_field_updates_are_isolated() {
    let mut st = Sstatus::from_bits(0);
    st.set_spp(PrivilegeMode::Supervisor);
    assert_eq!(st.bits, SSTATUS_SPP);
    st.set_spie(true);
    assert_eq!(st.bits, SSTATUS_SPP | SSTATUS_SPIE);
    st.set_spp(PrivilegeMode::User);
    assert_eq!(st.bits, SSTATUS_SPIE);
    st.set_spie(false);
    assert_eq!(st.bits, 0);
}
