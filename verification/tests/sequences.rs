use alpha_alocator::alocator::AlphaAlocator;
use alpha_alocator::error::{InvalidRelease, OutOfMemory};

const BASE: usize = 0x4000;
const CAP: usize = 64;
const SLOTS: usize = 6;

type Engine = AlphaAlocator<CAP, SLOTS, 32>;

/// A plain account of which bytes are taken, to hold the allocator against.
struct Ledger {
    taken: [bool; CAP],
    blocks: Vec<(usize, usize)>,
}

impl Ledger {
    fn new() -> Self {
        Ledger { taken: [false; CAP], blocks: Vec::new() }
    }

    fn free(&self) -> usize {
        self.taken.iter().filter(|t| !**t).count()
    }

    fn lowest_fit(&self, size: usize) -> Option<usize> {
        (0..CAP).find(|&o| o + size <= CAP && self.taken[o..o + size].iter().all(|t| !*t))
    }

    fn request(&mut self, size: usize) -> Result<usize, OutOfMemory> {
        if size > self.free() {
            return Err(OutOfMemory::InsufficientTotal);
        }
        let offset = self.lowest_fit(size).ok_or(OutOfMemory::Fragmentation)?;
        if self.blocks.len() == SLOTS {
            return Err(OutOfMemory::TableExhausted);
        }
        self.taken[offset..offset + size].iter_mut().for_each(|t| *t = true);
        self.blocks.push((offset, size));
        Ok(BASE + offset)
    }

    fn release(&mut self, addr: usize) -> Result<(), InvalidRelease> {
        if addr < BASE || addr >= BASE + CAP {
            return Err(InvalidRelease::UnknownAddress);
        }
        let offset = addr - BASE;
        let at = self.blocks.iter().position(|b| b.0 == offset).ok_or(InvalidRelease::NoMatchingBlock)?;
        let (_, size) = self.blocks.remove(at);
        self.taken[offset..offset + size].iter_mut().for_each(|t| *t = false);
        Ok(())
    }
}

fn check_invariants(a: &Engine, ledger: &Ledger) {
    let (blocks, count) = a.snapshot_sorted();
    let stats = a.stats();
    assert_eq!(stats.live_block_count, count);
    let mut sum = 0;
    for i in 0..count {
        assert!(blocks[i].size > 0);
        assert!(blocks[i].index + blocks[i].size <= CAP);
        if i + 1 < count {
            assert!(blocks[i].index + blocks[i].size <= blocks[i + 1].index);
        }
        sum += blocks[i].size;
    }
    assert_eq!(stats.free_bytes + sum, CAP);
    let mut expected = ledger.blocks.clone();
    expected.sort();
    let got: Vec<(usize, usize)> = blocks[..count].iter().map(|b| (b.index, b.size)).collect();
    assert_eq!(got, expected);
}

fn next(seed: &mut u64) -> usize {
    *seed = seed.wrapping_mul(6364136223846793005).wrapping_add(1442695040888963407);
    (*seed >> 33) as usize
}

fn run(mut seed: u64, steps: usize) {
    let mut a = Engine::new(BASE);
    let mut ledger = Ledger::new();
    let mut outcomes = [0usize; 6];
    for _ in 0..steps {
        if next(&mut seed) % 5 < 3 {
            let size = 1 + next(&mut seed) % 24;
            let got = a.allocate(size, 1 << (next(&mut seed) % 4));
            assert_eq!(got, ledger.request(size));
            outcomes[match got {
                Ok(_) => 0,
                Err(OutOfMemory::InsufficientTotal) => 1,
                Err(OutOfMemory::Fragmentation) => 2,
                Err(OutOfMemory::TableExhausted) => 3,
            }] += 1;
        } else {
            let addr = BASE - 4 + next(&mut seed) % (CAP + 8);
            let got = a.deallocate(addr, next(&mut seed) % 8);
            assert_eq!(got, ledger.release(addr));
            outcomes[if got.is_ok() { 4 } else { 5 }] += 1;
        }
        check_invariants(&a, &ledger);
    }
    assert!(outcomes.iter().all(|n| *n > 0), "{:?}", outcomes);
}

#[test]
fn invariants_hold_along_mixed_sequences() {
    run(1, 4000);
    run(0xfeed_beef, 4000);
    run(20261028, 4000);
}

#[test]
fn blocks_released_and_requested_again_never_overlap() {
    let mut a = Engine::new(BASE);
    let mut held: Vec<(usize, usize)> = Vec::new();
    let mut seed = 77;
    for round in 0..2000 {
        if round % 3 == 2 && !held.is_empty() {
            let (addr, size) = held.remove(next(&mut seed) % held.len());
            assert_eq!(a.deallocate(addr, size), Ok(()));
        } else {
            let size = 1 + next(&mut seed) % 16;
            if let Ok(addr) = a.allocate(size, 1) {
                for (other, len) in &held {
                    assert!(addr + size <= *other || *other + *len <= addr);
                }
                held.push((addr, size));
            }
        }
        let live: usize = held.iter().map(|h| h.1).sum();
        assert_eq!(a.stats().free_bytes + live, CAP);
        assert_eq!(a.stats().live_block_count, held.len());
    }
}

#[test]
fn every_split_of_the_arena_into_requests_is_granted() {
    // All ways to cut 12 bytes into at most 4 blocks.
    for first in 1..=12usize {
        for second in 0..=12 - first {
            for third in 0..=12 - first - second {
                let fourth = 12 - first - second - third;
                let sizes: Vec<usize> = [first, second, third, fourth].into_iter().filter(|s| *s > 0).collect();
                let mut a = AlphaAlocator::<12, 4, 4>::new(BASE);
                let mut expected = BASE;
                for size in sizes {
                    assert_eq!(a.allocate(size, 1), Ok(expected));
                    expected += size;
                }
                assert_eq!(a.stats().free_bytes, 0);
            }
        }
    }
}

#[test]
fn address_never_returned_is_rejected_at_every_step() {
    let mut a = Engine::new(BASE);
    let mut returned = [false; CAP];
    let mut seed = 5;
    for _ in 0..500 {
        let size = 1 + next(&mut seed) % 9;
        match a.allocate(size, 1) {
            Ok(addr) => returned[addr - BASE] = true,
            Err(_) => {
                let (blocks, count) = a.snapshot_sorted();
                let victim = blocks[next(&mut seed) % count].index;
                assert_eq!(a.deallocate(BASE + victim, 0), Ok(()));
            }
        }
        let before = (a.snapshot_sorted(), a.stats());
        for offset in 0..CAP {
            if !returned[offset] {
                assert_eq!(a.deallocate(BASE + offset, 1), Err(InvalidRelease::NoMatchingBlock));
            }
        }
        assert_eq!((a.snapshot_sorted(), a.stats()), before);
    }
}

#[test]
fn call_counter_counts_requests_only() {
    let mut a = Engine::new(BASE);
    for i in 0..10 {
        let _ = a.allocate(60, 1);
        let _ = a.deallocate(BASE, 60);
        let _ = a.deallocate(BASE + 1, 60);
        assert_eq!(a.stats().calls_served, i + 1);
    }
}
