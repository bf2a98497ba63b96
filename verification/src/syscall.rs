//! System-call dispatch: the saved register context an interrupt leaves on
//! the stack, and the handler that decodes the call number, fixes the
//! return register, and names the work the platform must carry out.

use vstd::prelude::*;

verus! {

/// The registers an interrupt-service routine saves, in push order.
#[derive(Clone, Copy, Debug, PartialEq, Eq, Structural)]
pub struct Context {
    pub edi: u32,
    pub esi: u32,
    pub ebp: u32,
    pub esp: u32,
    pub ebx: u32,
    pub edx: u32,
    pub ecx: u32,
    pub eax: u32,
    pub ds: u32,
    pub es: u32,
    pub fs: u32,
    pub gs: u32,
    pub int_no: u32,
    pub err_code: u32,
}

impl Context {
    /// The six registers that carry a call's arguments.
    pub fn syscall_args(&self) -> (r: [u32; 6])
        ensures
            r@ == seq![self.ebx, self.ecx, self.edx, self.esi, self.edi, self.ebp],
    {
        let r = [self.ebx, self.ecx, self.edx, self.esi, self.edi, self.ebp];
        proof {
            assert(r@ =~= seq![self.ebx, self.ecx, self.edx, self.esi, self.edi, self.ebp]);
        }
        r
    }

    /// The call number: what the caller put in the accumulator.
    pub fn get_arg(&self) -> (r: u32)
        ensures
            r == self.eax,
    {
        self.eax
    }

    /// Sets the call's result register.
    pub fn set_arg(&mut self, v: u32)
        ensures
            *final(self) == (Context { eax: v, ..*old(self) }),
    {
        self.eax = v;
    }
}

/// A raw argument tuple, as the trap path hands it over.
#[derive(Clone, Copy, Debug, PartialEq, Eq, Structural)]
#[allow(non_camel_case_types)]
pub struct args(pub u32, pub u32, pub u32, pub u32);

/// The outside work a decoded call asks the platform for.  The dispatcher
/// decides; the surrounding kernel loop performs the output or program
/// load and resumes.
#[derive(Clone, Copy, Debug, PartialEq, Eq, Structural)]
pub enum SyscallRequest {
    /// Report the exit code of call number 1.
    Exit { code: u32 },
    /// Write `count` bytes from the user buffer at `buf` (call 4).
    Write { fd: u32, buf: u32, count: u32 },
    /// Load and enter the initial program (call 11).
    Exec,
    /// Print the unrecognized call number.
    Unknown { number: u32 },
    /// Nothing beyond the return value (calls 3, 5, 6, 23, 243).
    Nothing,
}

/// Decodes the system call in `ctx`, writes its return value into the
/// accumulator, and returns the outside work the call asks for: `exit`
/// reports its code and returns 0; `read`, `open`, `close`, `setuid` and
/// `set_thread_area` are accepted and return 0; `write` returns its byte
/// count and asks for the bytes to be written out; `execve` asks for the
/// initial program; any other number is reported unchanged.
pub fn handler(ctx: &mut Context) -> (r: SyscallRequest)
    ensures
        old(ctx).eax == 1 ==> r == (SyscallRequest::Exit { code: old(ctx).ebx }) && final(ctx).eax
            == 0,
        (old(ctx).eax == 3 || old(ctx).eax == 5 || old(ctx).eax == 6 || old(ctx).eax == 23 || old(
            ctx,
        ).eax == 243) ==> r == SyscallRequest::Nothing && final(ctx).eax == 0,
        old(ctx).eax == 4 ==> r == (SyscallRequest::Write {
            fd: old(ctx).ebx,
            buf: old(ctx).ecx,
            count: old(ctx).edx,
        }) && final(ctx).eax == old(ctx).edx,
        old(ctx).eax == 11 ==> r == SyscallRequest::Exec && final(ctx).eax == 0,
        !(old(ctx).eax == 1 || old(ctx).eax == 3 || old(ctx).eax == 4 || old(ctx).eax == 5 || old(
            ctx,
        ).eax == 6 || old(ctx).eax == 11 || old(ctx).eax == 23 || old(ctx).eax == 243) ==> r == (
        SyscallRequest::Unknown { number: old(ctx).eax }) && *final(ctx) == *old(ctx),
        *final(ctx) == (Context { eax: final(ctx).eax, ..*old(ctx) }),
{
    let number = ctx.get_arg();
    if number == 1 {
        let code = ctx.ebx;
        ctx.set_arg(0);
        SyscallRequest::Exit { code }
    } else if number == 4 {
        let fd = ctx.ebx;
        let buf = ctx.ecx;
        let count = ctx.edx;
        ctx.set_arg(count);
        SyscallRequest::Write { fd, buf, count }
    } else if number == 11 {
        ctx.set_arg(0);
        SyscallRequest::Exec
    } else if number == 3 || number == 5 || number == 6 || number == 23 || number == 243 {
        ctx.set_arg(0);
        SyscallRequest::Nothing
    } else {
        SyscallRequest::Unknown { number }
    }
}

} // verus!
