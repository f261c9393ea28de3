use vstd::prelude::*;

verus! {

/// The size of a page, in bytes.
pub const PAGE_SIZE: usize = 4096;

/// Page permission bit: readable.
pub const PERM_R: u8 = 2;

/// Page permission bit: writable.
pub const PERM_W: u8 = 4;

/// Page permission bit: executable.
pub const PERM_X: u8 = 8;

/// Page permission bit: accessible from user mode.
pub const PERM_U: u8 = 16;

/// A point in time as seconds and microseconds, laid out as two machine words.
pub struct TimeVal {
    pub sec: usize,
    pub usec: usize,
}

/// The number of bytes in a machine word.
pub open spec fn word_bytes() -> nat {
    (usize::BITS / 8) as nat
}

/// The `n` lowest bytes of `x`, least significant first.
pub open spec fn le_bytes(x: nat, n: nat) -> Seq<u8>
    decreases n,
{
    if n == 0 {
        Seq::empty()
    } else {
        seq![(x % 256) as u8] + le_bytes(x / 256, (n - 1) as nat)
    }
}

/// The bytes of the time value for `us` microseconds, as it lies in memory: the
/// seconds, then the microseconds, each a little-endian machine word.
pub open spec fn time_val_bytes(us: usize) -> Seq<u8> {
    le_bytes((us / 1_000_000) as nat, word_bytes()) + le_bytes((us % 1_000_000) as nat, word_bytes())
}

/// Where buffer `b` starts when the buffers are laid end to end.
pub open spec fn buffer_start(buffers: Seq<Vec<u8>>, b: int) -> int
    decreases b,
{
    if b <= 0 {
        0
    } else {
        buffer_start(buffers, b - 1) + buffers[b - 1]@.len()
    }
}

/// Byte `i` of the `n` lowest bytes of `x`, least significant first, is digit `i` of
/// `x` in base 256.
pub proof fn lemma_le_bytes_digits(x: nat, n: nat)
    ensures
        le_bytes(x, n).len() == n,
        forall|i: int|
            0 <= i < n ==> #[trigger] le_bytes(x, n)[i] as int == (x as int
                / vstd::arithmetic::power::pow(256, i as nat)) % 256,
    decreases n,
{
    if n > 0 {
        lemma_le_bytes_digits(x / 256, (n - 1) as nat);
        assert forall|i: int| 0 <= i < n implies #[trigger] le_bytes(x, n)[i] as int == (x as int
            / vstd::arithmetic::power::pow(256, i as nat)) % 256 by {
            if i == 0 {
                vstd::arithmetic::power::lemma_pow0(256);
            } else {
                assert(le_bytes(x, n)[i] == le_bytes(x / 256, (n - 1) as nat)[i - 1]);
                vstd::arithmetic::power::lemma_pow_positive(256, (i - 1) as nat);
                vstd::arithmetic::div_mod::lemma_div_denominator(
                    x as int,
                    256,
                    vstd::arithmetic::power::pow(256, (i - 1) as nat),
                );
                reveal(vstd::arithmetic::power::pow);
                assert(vstd::arithmetic::power::pow(256, i as nat) == 256
                    * vstd::arithmetic::power::pow(256, (i - 1) as nat));
            }
        }
    }
}

/// The time value is two machine words: byte `i` of the first is digit `i` of the
/// seconds, byte `i` of the second digit `i` of the microseconds below a second, each
/// in base 256.
pub proof fn lemma_time_val_bytes_digits(us: usize)
    ensures
        time_val_bytes(us).len() == 2 * word_bytes(),
        forall|i: int|
            0 <= i < word_bytes() ==> #[trigger] time_val_bytes(us)[i] as int == ((us
                / 1_000_000) as int / vstd::arithmetic::power::pow(256, i as nat)) % 256,
        forall|i: int|
            0 <= i < word_bytes() ==> #[trigger] time_val_bytes(us)[word_bytes() + i] as int
                == ((us % 1_000_000) as int / vstd::arithmetic::power::pow(256, i as nat)) % 256,
{
    lemma_le_bytes_digits((us / 1_000_000) as nat, word_bytes());
    lemma_le_bytes_digits((us % 1_000_000) as nat, word_bytes());
}

/// The first buffer starts at 0, and each next one where the one before it ends.
pub proof fn lemma_buffer_start_steps(buffers: Seq<Vec<u8>>, b: int)
    requires
        0 <= b,
    ensures
        buffer_start(buffers, 0) == 0,
        buffer_start(buffers, b + 1) == buffer_start(buffers, b) + buffers[b]@.len(),
{
}

proof fn lemma_buffer_start_mono(buffers: Seq<Vec<u8>>, a: int, b: int)
    requires
        0 <= a <= b,
    ensures
        buffer_start(buffers, a) <= buffer_start(buffers, b),
    decreases b - a,
{
    if a < b {
        lemma_buffer_start_mono(buffers, a, b - 1);
    }
}

/// Appends the `n` lowest bytes of `x` to `out`, least significant first.
fn push_le_bytes(out: &mut Vec<u8>, x: usize, n: usize)
    ensures
        final(out)@ == old(out)@ + le_bytes(x as nat, n as nat),
{
    let mut cur = x;
    let mut k: usize = 0;
    while k < n
        invariant
            k <= n,
            out@ + le_bytes(cur as nat, (n - k) as nat) == old(out)@ + le_bytes(x as nat, n as nat),
        decreases n - k,
    {
        let byte = (cur & 0xff) as u8;
        assert(byte == (cur % 256) as u8) by (bit_vector)
            requires
                byte == (cur & 0xff) as u8,
        ;
        let next = cur >> 8;
        assert(next == cur / 256) by (bit_vector)
            requires
                next == cur >> 8,
        ;
        let ghost before = out@;
        out.push(byte);
        assert(le_bytes(cur as nat, (n - k) as nat) == seq![byte] + le_bytes(
            next as nat,
            (n - k - 1) as nat,
        ));
        assert(before + (seq![byte] + le_bytes(next as nat, (n - k - 1) as nat)) =~= out@
            + le_bytes(next as nat, (n - k - 1) as nat));
        cur = next;
        k += 1;
    }
    assert(le_bytes(cur as nat, 0) =~= Seq::<u8>::empty());
    assert(out@ + Seq::<u8>::empty() =~= out@);
}

/// get time syscall: writes the time value for `us` microseconds into the user
/// buffers `buffers`, laid end to end, as far as they reach; returns 0.
pub fn sys_get_time(us: usize, buffers: &mut Vec<Vec<u8>>) -> (r: isize)
    ensures
        r == 0,
        final(buffers)@.len() == old(buffers)@.len(),
        forall|b: int|
            #![trigger final(buffers)@[b]]
            0 <= b < old(buffers)@.len() ==> {
                &&& final(buffers)@[b]@.len() == old(buffers)@[b]@.len()
                &&& forall|i: int|
                    #![trigger final(buffers)@[b]@[i]]
                    0 <= i < old(buffers)@[b]@.len() ==> final(buffers)@[b]@[i] == if buffer_start(
                        old(buffers)@,
                        b,
                    ) + i < time_val_bytes(us).len() {
                        time_val_bytes(us)[buffer_start(old(buffers)@, b) + i]
                    } else {
                        old(buffers)@[b]@[i]
                    }
            },
{
    let tv = TimeVal { sec: us / 1_000_000, usec: us % 1_000_000 };
    let word: usize = (usize::BITS / 8) as usize;
    let mut time_buf: Vec<u8> = Vec::new();
    push_le_bytes(&mut time_buf, tv.sec, word);
    push_le_bytes(&mut time_buf, tv.usec, word);
    assert(time_buf@ =~= time_val_bytes(us));
    let ghost old_bufs = buffers@;
    let mut k: usize = 0;
    let mut b: usize = 0;
    while b < buffers.len()
        invariant
            time_buf@ == time_val_bytes(us),
            old_bufs == old(buffers)@,
            buffers@.len() == old_bufs.len(),
            b <= buffers.len(),
            k == buffer_start(old_bufs, b as int),
            k <= time_buf.len(),
            forall|c: int|
                #![trigger buffers@[c]]
                0 <= c < old_bufs.len() ==> buffers@[c]@.len() == old_bufs[c]@.len(),
            forall|c: int, i: int|
                #![trigger buffers@[c]@[i]]
                0 <= c < b && 0 <= i < old_bufs[c]@.len() ==> buffers@[c]@[i] == if buffer_start(
                    old_bufs,
                    c,
                ) + i < time_buf@.len() {
                    time_buf@[buffer_start(old_bufs, c) + i]
                } else {
                    old_bufs[c]@[i]
                },
            forall|c: int| #![trigger buffers@[c]] b <= c < old_bufs.len() ==> buffers@[c] == old_bufs[c],
        decreases buffers.len() - b,
    {
        let mut i: usize = 0;
        while i < buffers[b].len()
            invariant
                time_buf@ == time_val_bytes(us),
                old_bufs == old(buffers)@,
                buffers@.len() == old_bufs.len(),
                b < buffers.len(),
                k == buffer_start(old_bufs, b as int) + i,
                k <= time_buf.len(),
                i <= old_bufs[b as int]@.len(),
                forall|c: int|
                    #![trigger buffers@[c]]
                    0 <= c < old_bufs.len() ==> buffers@[c]@.len() == old_bufs[c]@.len(),
                forall|c: int, j: int|
                    #![trigger buffers@[c]@[j]]
                    0 <= c < b && 0 <= j < old_bufs[c]@.len() ==> buffers@[c]@[j] == if buffer_start(
                        old_bufs,
                        c,
                    ) + j < time_buf@.len() {
                        time_buf@[buffer_start(old_bufs, c) + j]
                    } else {
                        old_bufs[c]@[j]
                    },
                forall|j: int|
                    #![trigger buffers@[b as int]@[j]]
                    0 <= j < old_bufs[b as int]@.len() ==> buffers@[b as int]@[j] == if j < i {
                        time_buf@[buffer_start(old_bufs, b as int) + j]
                    } else {
                        old_bufs[b as int]@[j]
                    },
                forall|c: int| #![trigger buffers@[c]] b < c < old_bufs.len() ==> buffers@[c] == old_bufs[c],
            decreases old_bufs[b as int]@.len() - i,
        {
            if k >= time_buf.len() {
                proof {
                    assert forall|c: int, j: int|
                        0 <= c < old_bufs.len() && 0 <= j < old_bufs[c]@.len() implies #[trigger] buffers@[c]@[j]
                        == if buffer_start(old_bufs, c) + j < time_buf@.len() {
                        time_buf@[buffer_start(old_bufs, c) + j]
                    } else {
                        old_bufs[c]@[j]
                    } by {
                        if c > b {
                            lemma_buffer_start_mono(old_bufs, b + 1, c);
                        }
                    }
                }
                return 0;
            }
            buffers[b][i] = time_buf[k];
            k += 1;
            i += 1;
        }
        b += 1;
    }
    0
}


/// The flags of the page-table entry that maps an address.
#[derive(Clone, Copy, PartialEq, Eq, Structural, Debug)]
pub struct PteFlags {
    pub valid: bool,
    pub user: bool,
    pub readable: bool,
    pub writable: bool,
}

/// What the trace syscall asks the kernel to do.
#[derive(Clone, Copy, PartialEq, Eq, Structural, Debug)]
pub enum TraceAction {
    /// return -1
    Fail,
    /// return the byte at `offset` in the page, as a number
    ReadByte { offset: usize },
    /// write `value` at `offset` in the page, and return 0
    WriteByte { offset: usize, value: u8 },
    /// return how many times the current task made syscall `syscall_id`
    QuerySyscallCount { syscall_id: usize },
}

/// Trace request: read a byte of user memory.
pub const TRACE_READ_MEM: usize = 0;

/// Trace request: write a byte of user memory.
pub const TRACE_WRITE_MEM: usize = 1;

/// Trace request: count the calls of a syscall.
pub const TRACE_QUERY_SYSCALL_COUNT: usize = 2;

/// What the trace syscall does for `trace_request` on `id` with `data`, when `pte` is
/// the flags of the page-table entry that maps address `id` (`None`: not mapped).
pub open spec fn trace_action(
    trace_request: usize,
    id: usize,
    data: usize,
    pte: Option<PteFlags>,
) -> TraceAction {
    if trace_request == TRACE_QUERY_SYSCALL_COUNT {
        TraceAction::QuerySyscallCount { syscall_id: id }
    } else {
        match pte {
            None => TraceAction::Fail,
            Some(f) => if !f.valid || !f.user {
                TraceAction::Fail
            } else if trace_request == TRACE_READ_MEM && f.readable {
                TraceAction::ReadByte { offset: (id % PAGE_SIZE) as usize }
            } else if trace_request == TRACE_WRITE_MEM && f.writable {
                TraceAction::WriteByte {
                    offset: (id % PAGE_SIZE) as usize,
                    value: (data % 256) as u8,
                }
            } else {
                TraceAction::Fail
            },
        }
    }
}

/// trace syscall: reads or writes a byte of user memory at address `id`, or counts the
/// calls of syscall `id`. `pte` holds the flags of the page-table entry that maps address `id`; it is
/// only looked at for memory requests.
pub fn sys_trace(trace_request: usize, id: usize, data: usize, pte: Option<PteFlags>) -> (a: TraceAction)
    requires
        trace_request <= TRACE_QUERY_SYSCALL_COUNT,
    ensures
        a == trace_action(trace_request, id, data, pte),
        (a is ReadByte) <==> (trace_request == 0 && pte is Some && pte->0.valid && pte->0.user
            && pte->0.readable),
        (a is WriteByte) <==> (trace_request == 1 && pte is Some && pte->0.valid
            && pte->0.user && pte->0.writable),
        (a is QuerySyscallCount) <==> trace_request == 2,
        a matches TraceAction::ReadByte { offset } ==> offset == id % 4096,
        a matches TraceAction::WriteByte { offset, value } ==> offset == id % 4096 && value
            == data % 256,
        a matches TraceAction::QuerySyscallCount { syscall_id } ==> syscall_id == id,
{
    if trace_request == TRACE_READ_MEM || trace_request == TRACE_WRITE_MEM {
        match pte {
            None => TraceAction::Fail,
            Some(f) => {
                if !f.valid || !f.user {
                    return TraceAction::Fail;
                }
                let offset = id % PAGE_SIZE;
                if trace_request == TRACE_READ_MEM && f.readable {
                    TraceAction::ReadByte { offset }
                } else if trace_request == TRACE_WRITE_MEM && f.writable {
                    TraceAction::WriteByte { offset, value: (data % 256) as u8 }
                } else {
                    TraceAction::Fail
                }
            },
        }
    } else {
        TraceAction::QuerySyscallCount { syscall_id: id }
    }
}

/// A request to map the pages of `[start, end)` with the permission bits `permission`.
#[derive(Clone, Copy, PartialEq, Eq, Structural, Debug)]
pub struct MapRequest {
    pub start: usize,
    pub end: usize,
    pub permission: u8,
}

/// sbrk syscall: what it returns, given what changing the program break gave (the old
/// break, or `None` when the change was refused): the old break as a number, or -1.
pub fn sys_sbrk(old_brk: Option<usize>) -> (r: isize)
    ensures
        r == match old_brk {
            Some(b) => b as isize,
            None => -1isize,
        },
{
    match old_brk {
        Some(b) => b as isize,
        None => -1,
    }
}

/// mmap syscall: checks the request to map `len` bytes at `start` with the
/// protection `port` (bit 0 read, bit 1 write, bit 2 execute). It is refused (the
/// syscall returns -1) when `port` grants nothing or has other bits, or when `start`
/// is not page aligned; otherwise the pages of `[start, start + len)` are to be mapped
/// for user mode with the permissions `port` asks for.
pub fn sys_mmap(start: usize, len: usize, port: usize) -> (req: Option<MapRequest>)
    requires
        1 <= port <= 7 && start % PAGE_SIZE == 0 ==> start + len <= usize::MAX,
    ensures
        req is None <==> (port == 0 || port > 7 || start % PAGE_SIZE != 0),
        req matches Some(q) ==> q.start == start && q.end == start + len && q.permission
            == PERM_U + 2 * port,
{
    let mut flag: u8 = PERM_U;
    if port & 0x7 == 0 || port & !0x7 != 0 {
        assert((port & 0x7 == 0 || port & !0x7 != 0) == (port == 0 || port > 7)) by (bit_vector);
        return None;
    }
    assert(!(port & 0x7 == 0 || port & !0x7 != 0) ==> 1 <= port <= 7) by (bit_vector);
    let p = port as u8;
    assert(p == port);
    let ghost f0 = flag;
    if p & 0x1 != 0 {
        flag = flag | PERM_R;
    }
    let ghost f1 = flag;
    if p & 0x2 != 0 {
        flag = flag | PERM_W;
    }
    let ghost f2 = flag;
    if p & 0x4 != 0 {
        flag = flag | PERM_X;
    }
    let f3 = flag;
    assert(f3 == 16 + 2 * p) by (bit_vector)
        requires
            1 <= p <= 7,
            f0 == 16u8,
            f1 == if p & 1 != 0 { f0 | 2u8 } else { f0 },
            f2 == if p & 2 != 0 { f1 | 4u8 } else { f1 },
            f3 == if p & 4 != 0 { f2 | 8u8 } else { f2 },
    ;
    if start % PAGE_SIZE != 0 {
        return None;
    }
    Some(MapRequest { start, end: start + len, permission: flag })
}

/// munmap syscall: checks the request to unmap `len` bytes at `start`. It is refused
/// (the syscall returns -1) when `start` is not page aligned; otherwise the pages of
/// `[start, start + len)` are to be unmapped.
pub fn sys_munmap(start: usize, len: usize) -> (range: Option<(usize, usize)>)
    requires
        start % PAGE_SIZE == 0 ==> start + len <= usize::MAX,
    ensures
        range is None <==> start % PAGE_SIZE != 0,
        range matches Some(r) ==> r == (start, (start + len) as usize),
{
    if start % PAGE_SIZE != 0 {
        return None;
    }
    Some((start, start + len))
}

} // verus!
