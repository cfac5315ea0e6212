//! What the hardware probe reports, and the parts of it that are computed:
//! texts, the ranges that copying threads take, and when reading ends.

use vstd::prelude::*;
use vstd::string::*;

use crate::text::{decimal, push_decimal};

verus! {

/// Every device of the machine.
#[derive(Debug)]
pub struct VulkanReport {
    pub devices: Vec<DeviceReport>,
}

/// One device.
#[derive(Debug)]
pub struct DeviceReport {
    pub name: String,
    pub device_type: String,
    pub api_version: String,
    pub driver: String,
    pub subgroup_size: Option<u32>,
    pub subgroup_operations: Option<String>,
    pub max_storage_buffer_range: u32,
    pub max_push_constants_size: u32,
    pub max_compute_work_group_invocations: u32,
    pub features: FeatureReport,
    pub khr_cooperative_matrix: bool,
    /// Supported shapes and types of cooperative matrices, in words.
    pub cooperative_matrix_configs: Vec<String>,
    pub memory_heaps: Vec<HeapReport>,
}

/// The features that the kernels need: all must be there.
#[derive(Debug, Clone, Copy, PartialEq, Eq, Structural)]
pub struct FeatureReport {
    pub shader_float16: bool,
    pub storage_buffer16_bit_access: bool,
    pub uniform_and_storage_buffer16_bit_access: bool,
    pub timeline_semaphore: bool,
    pub cooperative_matrix: bool,
    pub shader_int8: bool,
}

#[derive(Debug)]
pub struct HeapReport {
    pub size_bytes: u64,
    pub flags: String,
}

/// What a device says of itself.
#[derive(Debug)]
pub struct DeviceFacts {
    pub name: String,
    pub device_type: String,
    pub api_version: (u32, u32, u32),
    pub driver_name: Option<String>,
    pub driver_info: Option<String>,
    pub subgroup_size: Option<u32>,
    pub subgroup_operations: Option<String>,
    pub max_storage_buffer_range: u32,
    pub max_push_constants_size: u32,
    pub max_compute_work_group_invocations: u32,
    pub features: FeatureReport,
    pub khr_cooperative_matrix: bool,
    pub memory_heaps: Vec<HeapReport>,
}

/// A version: `major.minor.patch`.
pub open spec fn version_text(v: (u32, u32, u32)) -> Seq<char> {
    decimal(v.0 as nat) + "."@ + decimal(v.1 as nat) + "."@ + decimal(v.2 as nat)
}

/// The text, or nothing.
pub open spec fn or_empty(s: Option<String>) -> Seq<char> {
    match s {
        Some(s) => s@,
        None => Seq::empty(),
    }
}

/// A driver: its name, and what it says of itself in brackets.
pub open spec fn driver_text(name: Option<String>, info: Option<String>) -> Seq<char> {
    or_empty(name) + " ("@ + or_empty(info) + ")"@
}

fn push_option(out: &mut String, s: &Option<String>)
    ensures
        final(out)@ == old(out)@ + or_empty(*s),
{
    match s {
        Some(s) => {
            out.append(s.as_str());
        },
        None => {
            assert(out@ =~= out@ + Seq::<char>::empty());
        },
    }
}

impl DeviceReport {
    /// The report of a device; `configs` are asked for only where the device
    /// has cooperative matrices.
    pub fn of(facts: DeviceFacts, configs: Vec<String>) -> (r: Self)
        ensures
            r.name == facts.name,
            r.device_type == facts.device_type,
            r.api_version@ == version_text(facts.api_version),
            r.driver@ == driver_text(facts.driver_name, facts.driver_info),
            r.subgroup_size == facts.subgroup_size,
            r.subgroup_operations == facts.subgroup_operations,
            r.max_storage_buffer_range == facts.max_storage_buffer_range,
            r.max_push_constants_size == facts.max_push_constants_size,
            r.max_compute_work_group_invocations == facts.max_compute_work_group_invocations,
            r.features == facts.features,
            r.khr_cooperative_matrix == facts.khr_cooperative_matrix,
            r.cooperative_matrix_configs@ == (if facts.khr_cooperative_matrix {
                configs@
            } else {
                Seq::empty()
            }),
            r.memory_heaps == facts.memory_heaps,
    {
        let (major, minor, patch): (u32, u32, u32) = facts.api_version;
        let mut api_version: String = String::new();
        push_decimal(&mut api_version, major as u64);
        api_version.append(".");
        push_decimal(&mut api_version, minor as u64);
        api_version.append(".");
        push_decimal(&mut api_version, patch as u64);
        assert(api_version@ =~= version_text(facts.api_version));
        let mut driver: String = String::new();
        push_option(&mut driver, &facts.driver_name);
        driver.append(" (");
        push_option(&mut driver, &facts.driver_info);
        driver.append(")");
        assert(driver@ =~= driver_text(facts.driver_name, facts.driver_info));
        DeviceReport {
            name: facts.name,
            device_type: facts.device_type,
            api_version,
            driver,
            subgroup_size: facts.subgroup_size,
            subgroup_operations: facts.subgroup_operations,
            max_storage_buffer_range: facts.max_storage_buffer_range,
            max_push_constants_size: facts.max_push_constants_size,
            max_compute_work_group_invocations: facts.max_compute_work_group_invocations,
            features: facts.features,
            khr_cooperative_matrix: facts.khr_cooperative_matrix,
            cooperative_matrix_configs: if facts.khr_cooperative_matrix {
                configs
            } else {
                Vec::new()
            },
            memory_heaps: facts.memory_heaps,
        }
    }
}

/// A shape of cooperative matrices; types and scope as the device names them.
#[derive(Debug)]
pub struct MatrixConfig {
    pub m: u32,
    pub n: u32,
    pub k: u32,
    pub a: String,
    pub b: String,
    pub c: String,
    pub result: String,
    pub saturating: bool,
    pub scope: String,
}

pub open spec fn bool_text(b: bool) -> Seq<char> {
    if b {
        "true"@
    } else {
        "false"@
    }
}

impl MatrixConfig {
    pub open spec fn text(self) -> Seq<char> {
        "M"@ + decimal(self.m as nat) + "xN"@ + decimal(self.n as nat) + "xK"@ + decimal(
            self.k as nat,
        ) + " A="@ + self.a@ + " B="@ + self.b@ + " C="@ + self.c@ + " Result="@ + self.result@
            + " saturating="@ + bool_text(self.saturating) + " scope="@ + self.scope@
    }

    /// The shape in words.
    pub fn line(&self) -> (s: String)
        ensures
            s@ == self.text(),
    {
        let mut s: String = "M".to_owned();
        push_decimal(&mut s, self.m as u64);
        s.append("xN");
        push_decimal(&mut s, self.n as u64);
        s.append("xK");
        push_decimal(&mut s, self.k as u64);
        s.append(" A=");
        s.append(self.a.as_str());
        s.append(" B=");
        s.append(self.b.as_str());
        s.append(" C=");
        s.append(self.c.as_str());
        s.append(" Result=");
        s.append(self.result.as_str());
        s.append(" saturating=");
        s.append(
            if self.saturating {
                "true"
            } else {
                "false"
            },
        );
        s.append(" scope=");
        s.append(self.scope.as_str());
        s
    }
}

/// The bytes that each of `threads` copies: shares of equal size from the
/// front, as many as are needed, the last one perhaps shorter.
pub open spec fn share(len: int, threads: int) -> int {
    (len + threads - 1) / threads
}

/// Share `k` of `len` bytes in shares of `size`.
pub open spec fn share_range(len: int, size: int, k: int) -> (int, int) {
    (
        k * size,
        if (k + 1) * size < len {
            (k + 1) * size
        } else {
            len
        },
    )
}

/// Splits `len` bytes between threads: each range from its first byte to
/// behind its last.
pub fn copy_ranges(len: usize, threads: usize) -> (ranges: Vec<(usize, usize)>)
    requires
        0 < len,
        0 < threads,
    ensures
        ({
            let size = share(len as int, threads as int);
            &&& ranges@.len() == share(len as int, size)
            &&& forall|k: int|
                0 <= k < ranges@.len() ==> (
                    (#[trigger] ranges@[k]).0 as int,
                    ranges@[k].1 as int,
                ) == share_range(len as int, size, k)
        }),
{
    proof {
        lemma_share(len as int, threads as int);
        lemma_round_up(len as int, threads as int);
    }
    let ghost size = share(len as int, threads as int);
    let chunk: usize = if len % threads == 0 {
        len / threads
    } else {
        len / threads + 1
    };
    let mut ranges: Vec<(usize, usize)> = Vec::new();
    let mut at: usize = 0;
    assert(0 * size == 0) by (nonlinear_arith);
    while at < len
        invariant
            chunk == size,
            0 < chunk <= len,
            at <= len,
            at < len ==> at == ranges@.len() * size,
            at == len ==> ranges@.len() == share(len as int, size),
            forall|k: int|
                0 <= k < ranges@.len() ==> (
                    (#[trigger] ranges@[k]).0 as int,
                    ranges@[k].1 as int,
                ) == share_range(len as int, size, k),
        decreases len - at,
    {
        let end: usize = if len - at > chunk {
            at + chunk
        } else {
            len
        };
        let ghost k = ranges@.len() as int;
        assert((k + 1) * size == k * size + size) by (nonlinear_arith);
        ranges.push((at, end));
        at = end;
        proof {
            if at == len {
                let a = len + size - 1;
                assert(a == (k + 1) * size + (a - (k + 1) * size));
                vstd::arithmetic::div_mod::lemma_fundamental_div_mod_converse(
                    a,
                    size,
                    k + 1,
                    a - (k + 1) * size,
                );
            }
        }
    }
    ranges
}

proof fn lemma_round_up(len: int, by: int)
    requires
        0 < len,
        0 < by,
    ensures
        share(len, by) == (if len % by == 0 {
            len / by
        } else {
            len / by + 1
        }),
{
    let q = len / by;
    let r = len % by;
    vstd::arithmetic::div_mod::lemma_fundamental_div_mod(len, by);
    let a = len + by - 1;
    if r == 0 {
        assert(a == q * by + (by - 1)) by (nonlinear_arith)
            requires
                a == len + by - 1,
                len == by * q + r,
                r == 0,
        ;
        vstd::arithmetic::div_mod::lemma_fundamental_div_mod_converse(a, by, q, by - 1);
    } else {
        assert(a == (q + 1) * by + (r - 1)) by (nonlinear_arith)
            requires
                a == len + by - 1,
                len == by * q + r,
        ;
        vstd::arithmetic::div_mod::lemma_fundamental_div_mod_converse(a, by, q + 1, r - 1);
    }
}

proof fn lemma_share(len: int, threads: int)
    requires
        0 < len,
        0 < threads,
    ensures
        0 < share(len, threads) <= len,
{
    let s = share(len, threads);
    let a = len + threads - 1;
    vstd::arithmetic::div_mod::lemma_fundamental_div_mod(a, threads);
    assert(0 < s <= len) by (nonlinear_arith)
        requires
            a == threads * s + a % threads,
            0 <= a % threads < threads,
            a == len + threads - 1,
            0 < len,
            0 < threads,
    ;
}

/// The ranges cover every byte once: the first starts at 0, each starts where
/// the one before ends, the last ends with the buffer, and there are no more
/// than threads.
pub proof fn lemma_ranges_cover(len: int, threads: int, k: int)
    requires
        0 < len,
        0 < threads,
        0 <= k < share(len, share(len, threads)),
    ensures
        ({
            let size = share(len, threads);
            let n = share(len, size);
            &&& n <= threads
            &&& k == 0 ==> share_range(len, size, k).0 == 0
            &&& k + 1 < n ==> share_range(len, size, k).1 == share_range(len, size, k + 1).0
            &&& k + 1 == n ==> share_range(len, size, k).1 == len
            &&& share_range(len, size, k).0 < share_range(len, size, k).1
        }),
{
    let size = share(len, threads);
    let n = share(len, size);
    lemma_share(len, threads);
    lemma_share(len, size);
    let a = len + size - 1;
    vstd::arithmetic::div_mod::lemma_fundamental_div_mod(a, size);
    assert(size * n == n * size) by (nonlinear_arith);
    assert((n - 1) * size == n * size - size) by (nonlinear_arith);
    assert((k + 1) * size == k * size + size) by (nonlinear_arith);
    assert(k * size <= (n - 1) * size) by (nonlinear_arith)
        requires
            k <= n - 1,
            0 < size,
    ;
    if k + 1 < n {
        assert((k + 1) * size <= (n - 1) * size) by (nonlinear_arith)
            requires
                k + 1 <= n - 1,
                0 < size,
        ;
    }
    assert(0 * size == 0) by (nonlinear_arith);
    let b = len + threads - 1;
    vstd::arithmetic::div_mod::lemma_fundamental_div_mod(b, threads);
    assert(threads * size >= len);
    if n > threads {
        assert((n - 1) * size >= threads * size) by (nonlinear_arith)
            requires
                n - 1 >= threads,
                0 < size,
        ;
    }
}

/// A sequential read of at most about `max_bytes`.
#[derive(Debug)]
pub struct ReadLoop {
    total: u64,
    max_bytes: u64,
    ended: bool,
}

impl ReadLoop {
    pub closed spec fn total(self) -> u64 {
        self.total
    }

    pub closed spec fn max_bytes(self) -> u64 {
        self.max_bytes
    }

    pub closed spec fn ended(self) -> bool {
        self.ended
    }

    pub fn new(max_bytes: u64) -> (r: Self)
        ensures
            r.total() == 0,
            r.max_bytes() == max_bytes,
            !r.ended(),
    {
        ReadLoop { total: 0, max_bytes, ended: false }
    }

    /// Whether to read on: the limit is not reached, and the last read gave
    /// something.
    pub fn reads_on(&self) -> (r: bool)
        ensures
            r == (!self.ended() && self.total() < self.max_bytes()),
    {
        !self.ended && self.total < self.max_bytes
    }

    /// Takes note of what a read gave; nothing is the end of the file.
    pub fn took(&mut self, n: usize)
        requires
            old(self).total() + n <= u64::MAX,
        ensures
            final(self).total() == old(self).total() + n,
            final(self).max_bytes() == old(self).max_bytes(),
            final(self).ended() == (old(self).ended() || n == 0),
    {
        if n == 0 {
            self.ended = true;
        }
        self.total = self.total + n as u64;
    }

    /// Bytes read so far.
    pub fn bytes_read(&self) -> (n: u64)
        ensures
            n == self.total(),
    {
        self.total
    }
}

/// How a report words what a device says: a version with points between its
/// numbers, and a driver's own words in brackets behind its name.
pub proof fn lemma_report_texts(v: (u32, u32, u32), name: Option<String>, info: Option<String>)
    ensures
        version_text(v) == decimal(v.0 as nat) + seq!['.'] + decimal(v.1 as nat) + seq!['.']
            + decimal(v.2 as nat),
        driver_text(name, info) == (match name {
            Some(n) => n@,
            None => Seq::empty(),
        }) + seq![' ', '('] + (match info {
            Some(i) => i@,
            None => Seq::empty(),
        }) + seq![')'],
{
    reveal_strlit(".");
    reveal_strlit(" (");
    reveal_strlit(")");
    assert("."@ =~= seq!['.']);
    assert(" ("@ =~= seq![' ', '(']);
    assert(")"@ =~= seq![')']);
}

} // verus!
