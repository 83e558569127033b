use mosalloc::consts;
use mosalloc::freemap::FreeMap;
use mosalloc::futex::{Futex, FutexCall, FUTEX_PRIVATE_FLAG, FUTEX_WAIT, FUTEX_WAKE};
use mosalloc::internal_allocator::{
    AllocOp, FreeOp, InternalAllocator, ReallocOp, ARENA_SIZE, MAX_SUPPORTED_ALIGN, MMAP_THRESHOLD,
};
use mosalloc::lock::{Lock, LOOPS_PER_YIELD};
use mosalloc::seccomp::{
    call_of, reply_for, reply_for_brk, Call, SYS_BRK, SYS_MADVISE, SYS_MMAP, SYS_MPROTECT,
    SYS_MREMAP, SYS_MUNMAP,
};

#[test]
fn constants_are_those_of_libc() {
    assert_eq!(consts::PROT_READ, libc::PROT_READ);
    assert_eq!(consts::PROT_WRITE, libc::PROT_WRITE);
    assert_eq!(consts::PROT_EXEC, libc::PROT_EXEC);
    assert_eq!(consts::MAP_SHARED, libc::MAP_SHARED);
    assert_eq!(consts::MAP_PRIVATE, libc::MAP_PRIVATE);
    assert_eq!(consts::MAP_SHARED_VALIDATE, libc::MAP_SHARED_VALIDATE);
    assert_eq!(consts::MAP_FIXED, libc::MAP_FIXED);
    assert_eq!(consts::MAP_ANONYMOUS, libc::MAP_ANONYMOUS);
    assert_eq!(consts::MAP_GROWSDOWN, libc::MAP_GROWSDOWN);
    assert_eq!(consts::MAP_HUGETLB, libc::MAP_HUGETLB);
    assert_eq!(consts::MAP_FIXED_NOREPLACE, libc::MAP_FIXED_NOREPLACE);
    assert_eq!(consts::MAP_HUGE_SHIFT, libc::MAP_HUGE_SHIFT);
    assert_eq!(consts::MREMAP_MAYMOVE, libc::MREMAP_MAYMOVE);
    assert_eq!(consts::MREMAP_FIXED, libc::MREMAP_FIXED);
    assert_eq!(consts::ENOMEM, libc::ENOMEM);
    assert_eq!(consts::EEXIST, libc::EEXIST);
    assert_eq!(consts::EINVAL, libc::EINVAL);
    assert_eq!(consts::MAP_FAILED, libc::MAP_FAILED as usize);
    assert_eq!(FUTEX_WAIT, libc::FUTEX_WAIT);
    assert_eq!(FUTEX_WAKE, libc::FUTEX_WAKE);
    assert_eq!(FUTEX_PRIVATE_FLAG, libc::FUTEX_PRIVATE_FLAG);
    assert_eq!(consts::MAP_HUGETLB | (21 << consts::MAP_HUGE_SHIFT), libc::MAP_HUGETLB | libc::MAP_HUGE_2MB);
    assert_eq!(consts::MAP_HUGETLB | (30 << consts::MAP_HUGE_SHIFT), libc::MAP_HUGETLB | libc::MAP_HUGE_1GB);
}

#[test]
fn lock_is_taken_and_released() {
    let mut l = Lock::new(true);
    assert!(l.try_lock());
    assert!(!l.try_lock());
    l.unlock();
    l.lock();
    assert!(!l.try_lock());
    l.unlock();
    assert!(l.try_lock());
    assert!(!Lock::new(false).try_lock());
}

#[test]
fn lock_backs_off_every_thousand_attempts() {
    assert_eq!(LOOPS_PER_YIELD, 1000);
    assert_eq!(Lock::backoff(0), (1, false));
    assert_eq!(Lock::backoff(998), (999, false));
    assert_eq!(Lock::backoff(999), (0, true));
}

#[test]
fn futex_word_follows_the_protocol() {
    let wait = Some(FutexCall { op: FUTEX_PRIVATE_FLAG | FUTEX_WAIT, val: -1 });
    let wake = Some(FutexCall { op: FUTEX_PRIVATE_FLAG | FUTEX_WAKE, val: 1 });
    let mut f = Futex::new();
    assert_eq!(f.lock(), None);
    assert_eq!(f.unlock(), None);
    assert_eq!(f.lock(), None);
    assert_eq!(f.lock(), wait);
    assert_eq!(f.lock(), wait);
    assert_eq!(f.unlock(), wake);
    assert_eq!(f.lock(), None);
    assert_eq!(f.unlock(), None);
    assert_eq!(f.unlock(), wake);
}

#[test]
fn free_map_tells_what_fits_and_what_overlaps() {
    let mut m = FreeMap::with_capacity(4);
    assert_eq!(m.len(), 0);
    assert_eq!(m.take(0, 1), None);
    assert_eq!(m.take(0, 0), None);
    m.give(0x1000, 0x1000);
    m.give(0x8000, 0x4000);
    assert!(m.can_fit(0, 0x4000));
    assert!(!m.can_fit(0, 0x4001));
    assert!(m.can_fit(0x9000, 0x3000));
    assert!(!m.can_fit(0x9000, 0x3001));
    assert!(!m.can_fit(0x3000, 1));
    assert!(m.overlaps(0x1fff, 1));
    assert!(!m.overlaps(0x2000, 0x6000));
    assert!(m.overlaps(0x2000, 0x6001));
    assert!(!m.overlaps(0x1800, 0));
    m.give(0x1800, 0x7000);
    assert_eq!(m.len(), 1);
    assert_eq!((m.get(0).start, m.get(0).end), (0x1000, 0xc000));
    assert_eq!(m.take(0x1000, 0), Some(0x1000));
    assert_eq!(m.take(0xc000, 0), Some(0xc000));
    assert_eq!(m.take(0xb000, 0x1000), Some(0xb000));
    assert_eq!((m.get(0).start, m.get(0).end), (0x1000, 0xb000));
    assert_eq!(m.take(0x1000, 0xa000), Some(0x1000));
    assert_eq!(m.len(), 0);
}

#[test]
fn small_objects_go_to_the_arena() {
    assert_eq!((ARENA_SIZE, MAX_SUPPORTED_ALIGN, MMAP_THRESHOLD), (256 * 1024, 4096, 4096));
    let mut a = InternalAllocator::new();
    assert_eq!(a.allocate(10, 1), AllocOp::Arena { offset: 0, zero: false });
    assert_eq!(a.alloc_zeroed(8, 8), AllocOp::Arena { offset: 16, zero: true });
    assert_eq!(a.idx, 24);
    assert_eq!(a.allocate(1, 4096), AllocOp::Arena { offset: 4096, zero: false });
    assert_eq!(a.allocate(1, 8192), AllocOp::Null);
    assert_eq!(a.stats(), (4097, ARENA_SIZE - 4097, 0, 0));
    assert_eq!(a.dealloc(0, 10), FreeOp::Nothing);
    assert_eq!(a.idx, 4097);
    assert_eq!(a.dealloc(4096, 1), FreeOp::Nothing);
    assert_eq!(a.idx, 4096);
}

#[test]
fn the_arena_runs_out() {
    let mut a = InternalAllocator::new();
    for i in 0..(ARENA_SIZE / 2048) {
        assert_eq!(a.allocate(2048, 1), AllocOp::Arena { offset: i * 2048, zero: false });
    }
    assert_eq!(a.idx, ARENA_SIZE);
    assert_eq!(a.allocate(1, 1), AllocOp::Null);
    assert_eq!(a.allocate(0, 1), AllocOp::Arena { offset: ARENA_SIZE, zero: false });
    assert_eq!(a.idx, ARENA_SIZE);
}

#[test]
fn large_objects_get_mappings_and_are_counted() {
    let mut a = InternalAllocator::new();
    assert_eq!(a.allocate(4096, 8), AllocOp::Mmap { size: 4096 });
    assert_eq!(a.allocate(5000, 8), AllocOp::Mmap { size: 5000 });
    assert_eq!(a.stats(), (0, ARENA_SIZE, 9096, 3192));
    assert_eq!(a.dealloc(123, 5000), FreeOp::Unmap { size: 5000 });
    assert_eq!(a.stats(), (0, ARENA_SIZE, 4096, 0));
    assert_eq!(
        a.realloc(0, 4096, 8, 10000),
        ReallocOp::Remap { old_size: 4096, new_size: 10000 }
    );
    assert_eq!(a.stats(), (0, ARENA_SIZE, 10000, 2288));
}

#[test]
fn objects_are_resized_in_place_at_the_top_of_the_arena() {
    let mut a = InternalAllocator::new();
    a.allocate(100, 1);
    a.allocate(50, 1);
    assert_eq!(a.realloc(100, 50, 1, 80), ReallocOp::InPlace);
    assert_eq!(a.idx, 180);
    assert_eq!(a.realloc(100, 80, 1, 20), ReallocOp::InPlace);
    assert_eq!(a.idx, 120);
    assert_eq!(
        a.realloc(0, 100, 4, 200),
        ReallocOp::Move {
            to: AllocOp::Arena { offset: 120, zero: false },
            copy: 100,
            release: FreeOp::Nothing
        }
    );
    assert_eq!(a.idx, 320);
    assert_eq!(
        a.realloc(120, 200, 4, 8192),
        ReallocOp::Move { to: AllocOp::Mmap { size: 8192 }, copy: 200, release: FreeOp::Nothing }
    );
    assert_eq!(a.idx, 120);
    assert_eq!(
        a.realloc(0, 8192, 4, 16),
        ReallocOp::Move {
            to: AllocOp::Arena { offset: 120, zero: false },
            copy: 16,
            release: FreeOp::Unmap { size: 8192 }
        }
    );
    assert_eq!(a.stats(), (136, ARENA_SIZE - 136, 0, 0));
    assert_eq!(a.realloc(120, 16, 1, 4095), ReallocOp::InPlace);
    a.idx = ARENA_SIZE - 10;
    assert_eq!(a.realloc(0, 10, 1, 100), ReallocOp::Null);
    assert_eq!(a.realloc(0, 5000, 1, 100), ReallocOp::Null);
    assert_eq!(a.idx, ARENA_SIZE - 10);
}

#[test]
fn system_call_numbers_are_those_of_the_kernel() {
    assert_eq!(SYS_BRK, syscalls::Sysno::brk as i32);
    assert_eq!(SYS_MMAP, syscalls::Sysno::mmap as i32);
    assert_eq!(SYS_MUNMAP, syscalls::Sysno::munmap as i32);
    assert_eq!(SYS_MPROTECT, syscalls::Sysno::mprotect as i32);
    assert_eq!(SYS_MADVISE, syscalls::Sysno::madvise as i32);
    assert_eq!(SYS_MREMAP, syscalls::Sysno::mremap as i32);
    assert_eq!(SYS_BRK as i64, libc::SYS_brk as i64);
    assert_eq!(SYS_MMAP as i64, libc::SYS_mmap as i64);
    assert_eq!(SYS_MUNMAP as i64, libc::SYS_munmap as i64);
    assert_eq!(SYS_MPROTECT as i64, libc::SYS_mprotect as i64);
    assert_eq!(SYS_MADVISE as i64, libc::SYS_madvise as i64);
    assert_eq!(SYS_MREMAP as i64, libc::SYS_mremap as i64);
    assert_eq!(call_of(12), Some(Call::Brk));
    assert_eq!(call_of(9), Some(Call::Mmap));
    assert_eq!(call_of(11), Some(Call::Munmap));
    assert_eq!(call_of(10), Some(Call::Mprotect));
    assert_eq!(call_of(28), Some(Call::Madvise));
    assert_eq!(call_of(25), Some(Call::Mremap));
    assert_eq!(call_of(0), None);
}

#[test]
fn replies_report_the_negated_error() {
    assert_eq!(reply_for(Call::Mmap, 0x7000, 12), (0x7000, 0));
    assert_eq!(reply_for(Call::Mmap, -1, 12), (-1, -12));
    assert_eq!(reply_for(Call::Mremap, -1, 17), (-1, -17));
    assert_eq!(reply_for(Call::Munmap, 0, 22), (0, 0));
    assert_eq!(reply_for(Call::Munmap, -1, 22), (-1, -22));
    assert_eq!(reply_for(Call::Madvise, -1, 22), (-1, -22));
    assert_eq!(reply_for(Call::Mprotect, -1, 13), (-1, 13));
    assert_eq!(reply_for(Call::Mprotect, 0, 13), (0, 0));
    assert_eq!(reply_for_brk(true, 0x5000, 0x4000), (0x5000, 0));
    assert_eq!(reply_for_brk(false, 0x5000, 0x4000), (0x4000, 0));
}
