use vstd::prelude::*;

verus! {

/// How a run of the virtual platform ends.
#[derive(Debug, Clone, Copy, PartialEq, Eq, Structural)]
pub enum ExitStatus {
    Pass,
    Fail(u16),
}

pub const EXIT_PASS: u32 = 0x5555;

pub const EXIT_FAIL: u32 = 0x3333;

/// The word written to the platform's exit register.
pub fn exit_code(status: ExitStatus) -> (r: u32)
    ensures
        status == ExitStatus::Pass ==> r == EXIT_PASS,
        status matches ExitStatus::Fail(n) ==> r == EXIT_FAIL | ((n as u32) << 16u32),
{
    match status {
        ExitStatus::Pass => EXIT_PASS,
        ExitStatus::Fail(n) => EXIT_FAIL | ((n as u32) << 16u32),
    }
}

/// The big-endian value of `s`.
pub open spec fn be_value(s: Seq<u8>) -> int
    decreases s.len(),
{
    if s.len() == 0 {
        0
    } else {
        be_value(s.drop_last()) * 256 + s.last()
    }
}

proof fn lemma_be_value_bound(s: Seq<u8>)
    ensures
        0 <= be_value(s),
        s.len() <= 8 ==> be_value(s) < pow256(s.len() as int),
    decreases s.len(),
{
    if s.len() > 0 {
        lemma_be_value_bound(s.drop_last());
        if s.len() <= 8 {
            assert(be_value(s.drop_last()) * 256 + s.last() < pow256(s.len() as int)) by (nonlinear_arith)
                requires
                    be_value(s.drop_last()) < pow256(s.len() - 1),
                    pow256(s.len() as int) == pow256(s.len() - 1) * 256,
                    s.last() < 256,
            ;
        }
    }
}

pub open spec fn pow256(n: int) -> int
    decreases n,
{
    if n <= 0 {
        1
    } else {
        pow256(n - 1) * 256
    }
}

/// The big-endian word in the eight bytes of `s` from `start` on.
fn read_be_u64(s: &[u8], start: usize) -> (r: u64)
    requires
        start <= 8,
        start + 8 <= s@.len(),
    ensures
        r == be_value(s@.subrange(start as int, start + 8)),
{
    let mut acc: u64 = 0;
    let mut i: usize = 0;
    while i < 8
        invariant
            start <= 8,
            start + 8 <= s@.len(),
            i <= 8,
            acc == be_value(s@.subrange(start as int, start + i)),
        decreases 8 - i,
    {
        proof {
            let p = s@.subrange(start as int, start + i);
            let q = s@.subrange(start as int, start + i + 1);
            assert(q.drop_last() =~= p);
            lemma_be_value_bound(q);
            reveal_with_fuel(pow256, 9);
            assert(pow256(8) == 0x1_0000_0000_0000_0000);
            lemma_pow256_mono(i + 1, 8);
        }
        acc = acc * 256 + s[start + i] as u64;
        i = i + 1;
    }
    acc
}

proof fn lemma_pow256_mono(a: int, b: int)
    requires
        0 <= a <= b,
    ensures
        pow256(a) <= pow256(b),
    decreases b - a,
{
    if a < b {
        lemma_pow256_mono(a, b - 1);
        assert(pow256(b) == pow256(b - 1) * 256);
        assert(pow256(b - 1) >= 1) by {
            lemma_pow256_pos(b - 1);
        }
    }
}

proof fn lemma_pow256_pos(a: int)
    ensures
        pow256(a) >= 1,
    decreases a,
{
    if a > 0 {
        lemma_pow256_pos(a - 1);
    }
}

/// The RAM region `(start, size)` from the `reg` property of the device
/// tree's memory node: two big-endian 64-bit words, nothing else.
pub fn memory_region(reg: &[u8]) -> (r: Option<(u64, u64)>)
    ensures
        reg@.len() != 16 ==> r is None,
        reg@.len() == 16 ==> r == Some(
            (be_value(reg@.subrange(0, 8)) as u64, be_value(reg@.subrange(8, 16)) as u64),
        ),
{
    if reg.len() != 16 {
        return None;
    }
    let at = read_be_u64(reg, 0);
    let size = read_be_u64(reg, 8);
    Some((at, size))
}

} // verus!
