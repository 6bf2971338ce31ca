use vstd::prelude::*;

verus! {

/// `n` is the length of the NUL-terminated string at the start of `s`: the
/// bytes before the first zero, or all of them where there is none.
pub open spec fn is_cstr_len(s: Seq<u8>, n: int) -> bool {
    &&& 0 <= n <= s.len()
    &&& forall|j: int| 0 <= j < n ==> #[trigger] s[j] != 0
    &&& n < s.len() ==> s[n] == 0
}

/// A NUL-terminated byte string, held with the memory that follows its start.
pub struct CStr {
    bytes: Vec<u8>,
}

impl CStr {
    pub closed spec fn memory(&self) -> Seq<u8> {
        self.bytes@
    }

    /// The string that starts at the first of `bytes`.
    pub fn new(bytes: Vec<u8>) -> (r: Self)
        ensures
            r.memory() == bytes@,
    {
        CStr { bytes }
    }

    /// Length of the string, the terminator not included.
    pub fn len(&self) -> (r: usize)
        ensures
            is_cstr_len(self.memory(), r as int),
    {
        let mut i: usize = 0;
        while i < self.bytes.len() && self.bytes[i] != 0
            invariant
                i <= self.bytes@.len(),
                forall|j: int| 0 <= j < i ==> #[trigger] self.bytes@[j] != 0,
            decreases self.bytes@.len() - i,
        {
            i = i + 1;
        }
        i
    }

    pub fn is_empty(&self) -> (r: bool)
        ensures
            r == (self.memory().len() == 0 || self.memory()[0] == 0),
    {
        let n = self.len();
        n == 0
    }

    /// The bytes of the string, the terminator not included.
    pub fn bytes(&self) -> (r: Vec<u8>)
        ensures
            is_cstr_len(self.memory(), r@.len() as int),
            r@ == self.memory().subrange(0, r@.len() as int),
    {
        let n = self.len();
        let mut out: Vec<u8> = Vec::new();
        let mut i: usize = 0;
        while i < n
            invariant
                n <= self.bytes@.len(),
                i <= n,
                out@ == self.bytes@.subrange(0, i as int),
            decreases n - i,
        {
            out.push(self.bytes[i]);
            i = i + 1;
            assert(out@ =~= self.bytes@.subrange(0, i as int));
        }
        out
    }

    /// The same bytes as `bytes`.
    pub fn as_slice(&self) -> (r: Vec<u8>)
        ensures
            is_cstr_len(self.memory(), r@.len() as int),
            r@ == self.memory().subrange(0, r@.len() as int),
    {
        self.bytes()
    }
}

pub open spec fn round_up(addr: int, align: int) -> int {
    if addr % align == 0 {
        addr
    } else {
        addr + align - addr % align
    }
}

/// Alignment checks and rounding on addresses.
pub trait PtrUtils: Sized {
    spec fn address(&self) -> int;

    /// Whether the address is a multiple of `align`.
    fn assert_aligned(self, align: usize) -> (r: bool)
        requires
            align > 0,
        ensures
            r == (self.address() % align as int == 0),
    ;

    /// The least multiple of `align` at or above the address; none where it
    /// does not fit.
    fn align_up(self, align: usize) -> (r: Option<Self>)
        requires
            align > 0,
        ensures
            r is Some <==> round_up(self.address(), align as int) <= usize::MAX,
            r is Some ==> r->0.address() == round_up(self.address(), align as int),
            r is Some ==> r->0.address() % align as int == 0,
            r is Some ==> self.address() <= r->0.address() < self.address() + align,
    ;
}

impl PtrUtils for usize {
    open spec fn address(&self) -> int {
        *self as int
    }

    fn assert_aligned(self, align: usize) -> (r: bool) {
        self % align == 0
    }

    fn align_up(self, align: usize) -> (r: Option<usize>) {
        proof {
            lemma_round_up(self as int, align as int);
        }
        let rem = self % align;
        if rem == 0 {
            return Some(self);
        }
        let offset = align - rem;
        if self > usize::MAX - offset {
            return None;
        }
        Some(self + offset)
    }
}

/// `round_up` is the least multiple of `align` at or above `addr`.
pub proof fn lemma_round_up(addr: int, align: int)
    requires
        addr >= 0,
        align > 0,
    ensures
        round_up(addr, align) % align == 0,
        addr <= round_up(addr, align) < addr + align,
{
    vstd::arithmetic::div_mod::lemma_fundamental_div_mod(addr, align);
    if addr % align != 0 {
        let q = addr / align;
        assert(round_up(addr, align) == (q + 1) * align) by (nonlinear_arith)
            requires
                addr == align * q + addr % align,
                round_up(addr, align) == addr + align - addr % align,
        ;
        vstd::arithmetic::div_mod::lemma_mod_multiples_basic(q + 1, align);
    }
}

/// The ASCII digit of a nibble, lower case.
pub open spec fn hex_digit(n: int) -> u8 {
    if n < 10 {
        (48 + n) as u8
    } else {
        (87 + n) as u8
    }
}

/// A byte as shown in the character column: itself where printable, a
/// space otherwise.
pub open spec fn shown(b: u8) -> u8 {
    if 0x20 <= b <= 0x7F {
        b
    } else {
        0x20
    }
}

/// Two hex digits and a space for each byte.
pub open spec fn hex_column(s: Seq<u8>) -> Seq<u8>
    decreases s.len(),
{
    if s.len() == 0 {
        Seq::empty()
    } else {
        hex_column(s.drop_last()) + seq![hex_digit(s.last() as int / 16), hex_digit(s.last() as int % 16), 0x20u8]
    }
}

pub open spec fn char_column(s: Seq<u8>) -> Seq<u8>
    decreases s.len(),
{
    if s.len() == 0 {
        Seq::empty()
    } else {
        char_column(s.drop_last()).push(shown(s.last()))
    }
}

/// The separator between the two columns.
pub open spec fn column_separator() -> Seq<u8> {
    seq![0x20u8, 0x20u8, 0x7Cu8, 0x20u8, 0x20u8]
}

fn hex_digit_exec(n: u8) -> (r: u8)
    requires
        n < 16,
    ensures
        r == hex_digit(n as int),
{
    if n < 10 {
        48 + n
    } else {
        87 + n
    }
}

/// The 16 bytes found at `addr`, for a debugging dump.
pub struct DebugBytesAt {
    pub addr: usize,
    pub bytes: Vec<u8>,
}

impl DebugBytesAt {
    pub fn new(addr: usize, bytes: Vec<u8>) -> (r: Self)
        ensures
            r.addr == addr,
            r.bytes@ == bytes@,
    {
        DebugBytesAt { addr, bytes }
    }

    /// The dump after the address, in ASCII: each byte in hex, then the
    /// separator, then each byte as a character where printable.
    pub fn dump(&self) -> (r: Vec<u8>)
        ensures
            r@ == hex_column(self.bytes@) + column_separator() + char_column(self.bytes@),
    {
        let mut out: Vec<u8> = Vec::new();
        let mut i: usize = 0;
        while i < self.bytes.len()
            invariant
                i <= self.bytes@.len(),
                out@ == hex_column(self.bytes@.subrange(0, i as int)),
            decreases self.bytes@.len() - i,
        {
            let b = self.bytes[i];
            out.push(hex_digit_exec(b / 16));
            out.push(hex_digit_exec(b % 16));
            out.push(0x20);
            proof {
                let q = self.bytes@.subrange(0, i + 1);
                assert(q.drop_last() =~= self.bytes@.subrange(0, i as int));
                assert(out@ =~= hex_column(q));
            }
            i = i + 1;
        }
        assert(self.bytes@.subrange(0, i as int) =~= self.bytes@);
        out.push(0x20);
        out.push(0x20);
        out.push(0x7C);
        out.push(0x20);
        out.push(0x20);
        let ghost head = hex_column(self.bytes@) + column_separator();
        assert(out@ =~= head);
        let mut k: usize = 0;
        while k < self.bytes.len()
            invariant
                k <= self.bytes@.len(),
                out@ == head + char_column(self.bytes@.subrange(0, k as int)),
            decreases self.bytes@.len() - k,
        {
            let b = self.bytes[k];
            let c = if 0x20 <= b && b <= 0x7F {
                b
            } else {
                0x20
            };
            out.push(c);
            proof {
                let q = self.bytes@.subrange(0, k + 1);
                assert(q.drop_last() =~= self.bytes@.subrange(0, k as int));
                assert(out@ =~= head + char_column(q));
            }
            k = k + 1;
        }
        assert(self.bytes@.subrange(0, k as int) =~= self.bytes@);
        out
    }
}

} // verus!
