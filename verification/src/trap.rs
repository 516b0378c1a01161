//! The record crossing the user/kernel boundary on a trap, and the model
//! of the supervisor status register it carries.
//!
//! The record's field count and order are an ABI contract with the
//! trap-entry and trap-exit assembly: thirty-two general registers, the
//! status snapshot, the saved program counter, then the kernel page-table
//! token, kernel stack pointer and trap-handler entry the assembly needs
//! to re-enter the kernel.  Any change here requires a matching change
//! there.

use vstd::prelude::*;

verus! {

/// The SPIE bit of the status register: interrupts enabled after the next
/// return from trap.
pub const SSTATUS_SPIE: u64 = 0x20;

/// The SPP bit of the status register: the privilege the hart returns to
/// on the next return from trap — clear for user, set for supervisor.
pub const SSTATUS_SPP: u64 = 0x100;

/// The privilege level a trap return drops to.
#[derive(Copy, Clone, PartialEq, Eq, Structural, Debug)]
pub enum PrivilegeMode {
    User,
    Supervisor,
}

/// A snapshot of the supervisor status register, held as its raw bits.
#[derive(Copy, Clone, PartialEq, Eq, Structural, Debug)]
pub struct Sstatus {
    pub bits: u64,
}

impl Sstatus {
    /// The privilege-after-trap field.
    pub open spec fn spec_spp(self) -> PrivilegeMode {
        if self.bits & SSTATUS_SPP == 0 {
            PrivilegeMode::User
        } else {
            PrivilegeMode::Supervisor
        }
    }

    /// The interrupt-enable-after-trap field.
    pub open spec fn spec_spie(self) -> bool {
        self.bits & SSTATUS_SPIE != 0
    }

    /// A snapshot holding exactly the given bits.
    pub fn from_bits(bits: u64) -> (r: Self)
        ensures
            r.bits == bits,
    {
        Sstatus { bits }
    }

    /// Set the privilege-after-trap field, leaving every other bit alone.
    pub fn set_spp(&mut self, mode: PrivilegeMode)
        ensures
            final(self).bits == (if mode == PrivilegeMode::User {
                old(self).bits & !SSTATUS_SPP
            } else {
                old(self).bits | SSTATUS_SPP
            }),
            final(self).spec_spp() == mode,
            final(self).spec_spie() == old(self).spec_spie(),
    {
        proof {
            let b = self.bits;
            assert((b & !0x100u64) & 0x100 == 0) by (bit_vector);
            assert((b | 0x100u64) & 0x100 != 0) by (bit_vector);
            assert((b & !0x100u64) & 0x20 == b & 0x20) by (bit_vector);
            assert((b | 0x100u64) & 0x20 == b & 0x20) by (bit_vector);
        }
        match mode {
            PrivilegeMode::User => {
                self.bits = self.bits & !SSTATUS_SPP;
            },
            PrivilegeMode::Supervisor => {
                self.bits = self.bits | SSTATUS_SPP;
            },
        }
    }

    /// Set the interrupt-enable-after-trap field, leaving every other bit
    /// alone.
    pub fn set_spie(&mut self, enabled: bool)
        ensures
            final(self).bits == (if enabled {
                old(self).bits | SSTATUS_SPIE
            } else {
                old(self).bits & !SSTATUS_SPIE
            }),
            final(self).spec_spie() == enabled,
            final(self).spec_spp() == old(self).spec_spp(),
    {
        proof {
            let b = self.bits;
            assert((b | 0x20u64) & 0x20 != 0) by (bit_vector);
            assert((b & !0x20u64) & 0x20 == 0) by (bit_vector);
            assert((b | 0x20u64) & 0x100 == b & 0x100) by (bit_vector);
            assert((b & !0x20u64) & 0x100 == b & 0x100) by (bit_vector);
        }
        if enabled {
            self.bits = self.bits | SSTATUS_SPIE;
        } else {
            self.bits = self.bits & !SSTATUS_SPIE;
        }
    }
}

/// Saved state at the user/kernel boundary: the thirty-two general
/// registers, the status snapshot, the saved program counter, and the
/// kernel-side values the trap-entry assembly reloads.
#[derive(Copy, Clone, Debug)]
pub struct TrapContext {
    pub x: [u64; 32],
    pub sstatus: Sstatus,
    pub sepc: u64,
    pub kernel_satp: u64,
    pub kernel_sp: u64,
    pub trap_handler: u64,
}

impl TrapContext {
    /// Store a stack pointer in register slot 2, the stack-pointer
    /// register.
    pub fn set_sp(&mut self, sp: u64)
        ensures
            final(self).x@ == old(self).x@.update(2, sp),
            final(self).sstatus == old(self).sstatus,
            final(self).sepc == old(self).sepc,
            final(self).kernel_satp == old(self).kernel_satp,
            final(self).kernel_sp == old(self).kernel_sp,
            final(self).trap_handler == old(self).trap_handler,
    {
        self.x[2] = sp;
    }

    /// The record used the first time a task enters user mode: registers
    /// zeroed except the stack pointer, the saved program counter at the
    /// task's entry, and the given status snapshot forced to return to
    /// user privilege with interrupts enabled.  The kernel token, kernel
    /// stack pointer and trap-handler entry are stored for the trap-entry
    /// assembly.
    pub fn app_init_context(
        entry: u64,
        sp: u64,
        kernel_satp: u64,
        kernel_sp: u64,
        trap_handler: u64,
        sstatus: Sstatus,
    ) -> (r: Self)
        ensures
            r.x@[2] == sp,
            forall|i: int| 0 <= i < 32 && i != 2 ==> r.x@[i] == 0,
            r.sepc == entry,
            r.kernel_satp == kernel_satp,
            r.kernel_sp == kernel_sp,
            r.trap_handler == trap_handler,
            r.sstatus.spec_spp() == PrivilegeMode::User,
            r.sstatus.spec_spie(),
            r.sstatus.bits == (sstatus.bits & !SSTATUS_SPP) | SSTATUS_SPIE,
    {
        let mut status = sstatus;
        status.set_spp(PrivilegeMode::User);
        status.set_spie(true);
        let mut cx = TrapContext {
            x: [0; 32],
            sstatus: status,
            sepc: entry,
            kernel_satp,
            kernel_sp,
            trap_handler,
        };
        cx.set_sp(sp);
        cx
    }
}

} // verus!
