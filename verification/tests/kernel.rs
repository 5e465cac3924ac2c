use kernel_alloc::interrupts::InterruptIndex;
use kernel_alloc::QemuExitCode;

#[test]
fn trivial_assertion() {
    assert_eq!(1, 1);
}

#[test]
fn qemu_exit_codes() {
    assert_eq!(QemuExitCode::Success.code(), 0x10);
    assert_eq!(QemuExitCode::Failed.code(), 0x11);
    // The emulator shifts the code and sets the low bit.
    assert_eq!((QemuExitCode::Success.code() << 1) | 1, 33);
}

#[test]
fn interrupt_vectors_follow_the_exception_range() {
    assert_eq!(InterruptIndex::Timer.as_u8(), 32);
    assert_eq!(InterruptIndex::Keyboard.as_u8(), 33);
    assert_eq!(InterruptIndex::Timer.as_usize(), 32);
    assert_eq!(InterruptIndex::Keyboard.as_usize(), 33);
}
