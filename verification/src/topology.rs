//! The topology resolver: turns explicit per-domain CPU masks, or per-CPU
//! cache ids, into a domain→cpuset and cpu→domain mapping, checked so that
//! every CPU lands in exactly one domain.

use vstd::prelude::*;
use crate::{MAX_CPUS, MAX_DOMS};

verus! {

/// Why a topology was refused.
#[derive(Clone, Copy, Debug, PartialEq, Eq, Structural)]
pub enum ConfigError {
    /// More domains than the kernel component supports.
    TooManyDomains,
    /// A mask is not a hex string.
    BadMask { dom: usize },
    /// A mask names a CPU the machine does not have.
    CpuOutOfRange { cpu: usize, dom: usize },
    /// A CPU appears in two masks.
    CpuInTwoMasks { cpu: usize, dom: usize },
    /// A CPU appears in no mask.
    CpuNotCovered { cpu: usize },
}

pub open spec fn is_hex_digit(b: u8) -> bool {
    (0x30 <= b <= 0x39) || (0x61 <= b <= 0x66) || (0x41 <= b <= 0x46)
}

pub open spec fn hex_val(b: u8) -> u8 {
    if 0x30 <= b <= 0x39 {
        (b - 0x30) as u8
    } else if 0x61 <= b <= 0x66 {
        (b - 0x61 + 10) as u8
    } else if 0x41 <= b <= 0x46 {
        (b - 0x41 + 10) as u8
    } else {
        0
    }
}

/// The bytes a hex digit string denotes, high digit first.
pub open spec fn hex_bytes(s: Seq<u8>) -> Seq<u8> {
    Seq::new((s.len() / 2) as nat, |i: int| ((hex_val(s[2 * i]) as int) * 16 + hex_val(
        s[2 * i + 1],
    ) as int) as u8)
}

/// Relies on hex::decode of the hex crate: an even-length string of hex
/// digits (either case) decodes to one byte per digit pair, high digit
/// first; an odd length or any other byte is refused.
#[verifier::external_body]
fn hex_decode(data: &Vec<u8>) -> (r: Option<Vec<u8>>)
    ensures
        r is Some <==> (data@.len() % 2 == 0 && forall|i: int|
            0 <= i < data@.len() ==> is_hex_digit(#[trigger] data@[i])),
        r matches Some(v) ==> v@ == hex_bytes(data@),
{
    match hex::decode(data.as_slice()) {
        Ok(v) => Some(v),
        Err(_) => None,
    }
}

/// The mask text without underscores.
pub open spec fn no_unders(s: Seq<u8>) -> Seq<u8>
    decreases s.len(),
{
    if s.len() == 0 {
        Seq::empty()
    } else if s.last() == 0x5f {
        no_unders(s.drop_last())
    } else {
        no_unders(s.drop_last()).push(s.last())
    }
}

pub proof fn lemma_no_unders_len(s: Seq<u8>)
    ensures
        no_unders(s).len() <= s.len(),
    decreases s.len(),
{
    if s.len() > 0 {
        lemma_no_unders_len(s.drop_last());
    }
}

/// A mask text cleaned for decoding: an optional `0x` prefix dropped,
/// underscores removed, padded to even length with a leading zero digit.
pub open spec fn cleaned(s: Seq<u8>) -> Seq<u8> {
    let stripped = if s.len() >= 2 && s[0] == 0x30 && s[1] == 0x78 {
        s.subrange(2, s.len() as int)
    } else {
        s
    };
    let bare = no_unders(stripped);
    if bare.len() % 2 == 1 {
        seq![0x30u8] + bare
    } else {
        bare
    }
}

/// Whether a mask text denotes a bit string at all.
pub open spec fn mask_valid(s: Seq<u8>) -> bool {
    forall|i: int| 0 <= i < cleaned(s).len() ==> is_hex_digit(#[trigger] cleaned(s)[i])
}

/// Bit `c` of a big-endian byte string: bit `c % 8` of the `c / 8`-th byte
/// from the end.
pub open spec fn bytes_bit(b: Seq<u8>, c: int) -> bool {
    &&& 0 <= c
    &&& c / 8 < b.len()
    &&& b[b.len() - 1 - c / 8] & (1u8 << ((c % 8) as u8)) != 0
}

/// Whether a mask text names CPU `c`.
pub open spec fn mask_bit(s: Seq<u8>, c: int) -> bool {
    bytes_bit(hex_bytes(cleaned(s)), c)
}

/// Cleans one mask text: drops an optional `0x` prefix and underscores, and
/// pads to even length.
fn clean_mask(mask: &Vec<u8>) -> (r: Vec<u8>)
    requires
        mask@.len() <= 0x1000_0000,
    ensures
        r@ == cleaned(mask@),
{
    let ghost stripped = if mask@.len() >= 2 && mask@[0] == 0x30 && mask@[1] == 0x78 {
        mask@.subrange(2, mask@.len() as int)
    } else {
        mask@
    };
    let start: usize = if mask.len() >= 2 && mask[0] == 0x30 && mask[1] == 0x78 {
        2
    } else {
        0
    };
    let mut bare: Vec<u8> = Vec::new();
    let n = mask.len();
    proof {
        assert(stripped.subrange(0, 0) =~= Seq::<u8>::empty());
    }
    for i in start..n
        invariant
            n == mask@.len(),
            start == if mask@.len() >= 2 && mask@[0] == 0x30 && mask@[1] == 0x78 { 2int } else { 0int },
            start <= i <= n,
            stripped == (if mask@.len() >= 2 && mask@[0] == 0x30 && mask@[1] == 0x78 {
                mask@.subrange(2, mask@.len() as int)
            } else {
                mask@
            }),
            bare@ == no_unders(stripped.subrange(0, i - start)),
    {
        let b = mask[i];
        proof {
            assert(stripped.subrange(0, i + 1 - start).drop_last() =~= stripped.subrange(
                0,
                i - start,
            ));
            assert(stripped.subrange(0, i + 1 - start).last() == mask@[i as int]);
        }
        if b != 0x5f {
            bare.push(b);
        }
    }
    proof {
        assert(stripped.subrange(0, n - start) =~= stripped);
    }
    if bare.len() % 2 == 1 {
        bare.insert(0, 0x30);
        proof {
            assert(bare@ =~= seq![0x30u8] + no_unders(stripped));
        }
    }
    bare
}

/// Tests bit `c` of a big-endian byte string.
fn bytes_bit_exec(bytes: &Vec<u8>, c: usize) -> (r: bool)
    ensures
        r == bytes_bit(bytes@, c as int),
{
    let idx = c / 8;
    if idx >= bytes.len() {
        return false;
    }
    let byte = bytes[bytes.len() - 1 - idx];
    byte & (1u8 << ((c % 8) as u8)) != 0
}

/// A set of CPUs, stored as `MAX_CPUS` bits in 64-bit words, low CPUs in the
/// low bits of the first word — the layout of the kernel component's
/// configuration area.
#[derive(Debug)]
pub struct Cpumask {
    pub words: Vec<u64>,
}

pub open spec fn bit64(w: u64, j: u64) -> bool {
    w & (1u64 << j) != 0
}

impl Cpumask {
    pub open spec fn wf(self) -> bool {
        self.words@.len() == MAX_CPUS / 64
    }

    pub open spec fn bit(self, c: int) -> bool {
        &&& 0 <= c < MAX_CPUS
        &&& bit64(self.words@[c / 64], (c % 64) as u64)
    }

    pub fn new() -> (r: Self)
        ensures
            r.wf(),
            forall|c: int| !r.bit(c),
    {
        let words: Vec<u64> = vec![0u64; MAX_CPUS / 64];
        proof {
            assert forall|c: int| !(Cpumask { words }.bit(c)) by {
                if 0 <= c < MAX_CPUS {
                    let j = (c % 64) as u64;
                    assert(0u64 & (1u64 << j) == 0) by (bit_vector);
                }
            }
        }
        Cpumask { words }
    }

    /// Adds one CPU to the set.
    pub fn set_cpu(&mut self, c: usize)
        requires
            old(self).wf(),
            c < MAX_CPUS,
        ensures
            final(self).wf(),
            forall|j: int| final(self).bit(j) == (old(self).bit(j) || j == c),
    {
        let wi = c / 64;
        let sh = (c % 64) as u64;
        let w = self.words[wi];
        self.words[wi] = w | (1u64 << sh);
        proof {
            vstd::arithmetic::div_mod::lemma_fundamental_div_mod(c as int, 64);
            assert forall|j: int| self.bit(j) == (old(self).bit(j) || j == c) by {
                if 0 <= j < MAX_CPUS {
                    vstd::arithmetic::div_mod::lemma_fundamental_div_mod(j, 64);
                    let ji = (j % 64) as u64;
                    if j / 64 == wi {
                        assert((w | (1u64 << sh)) & (1u64 << ji) != 0 <==> (w & (1u64 << ji) != 0
                            || ji == sh)) by (bit_vector)
                            requires sh < 64, ji < 64;
                    }
                }
            }
        }
    }

    /// Tests one CPU.
    pub fn get(&self, c: usize) -> (r: bool)
        requires
            self.wf(),
            c < MAX_CPUS,
        ensures
            r == self.bit(c as int),
    {
        let w = self.words[c / 64];
        w & (1u64 << ((c % 64) as u64)) != 0
    }
}

/// Whether some mask of the list names CPU `c`.
pub open spec fn covered(masks: Seq<Vec<u8>>, c: int) -> bool {
    exists|d: int| 0 <= d < masks.len() && #[trigger] mask_bit(masks[d]@, c)
}

/// Whether the mask list is a partition of the machine's CPUs: within the
/// domain ceiling, every mask a hex string, no mask bit out of range, no CPU
/// in two masks, every CPU in one.
pub open spec fn masks_valid(masks: Seq<Vec<u8>>, nr_cpus: int) -> bool {
    &&& masks.len() <= MAX_DOMS
    &&& forall|d: int| 0 <= d < masks.len() ==> mask_valid((#[trigger] masks[d])@)
    &&& forall|d: int, c: int|
        0 <= d < masks.len() && #[trigger] mask_bit(masks[d]@, c) ==> c < nr_cpus
    &&& forall|d1: int, d2: int, c: int|
        0 <= d1 < d2 < masks.len() ==> !(#[trigger] mask_bit(masks[d1]@, c) && #[trigger] mask_bit(
            masks[d2]@,
            c,
        ))
    &&& forall|c: int|
        #![trigger covered(masks, c)]
        0 <= c < nr_cpus ==> covered(masks, c)
}

/// Resolves an explicit mask list: one hex mask per domain, each CPU in
/// exactly one mask, every mask bit a real CPU. Returns the per-domain
/// cpusets and the per-CPU domain assignment, or the first violation found.
pub fn parse_cpusets(cpumasks: &Vec<Vec<u8>>, nr_cpus: usize) -> (r: Result<
    (Vec<Cpumask>, Vec<i32>),
    ConfigError,
>)
    requires
        1 <= nr_cpus <= MAX_CPUS,
        forall|d: int| 0 <= d < cpumasks@.len() ==> (#[trigger] cpumasks@[d])@.len() <= 0x1000_0000,
    ensures
        r is Ok <==> masks_valid(cpumasks@, nr_cpus as int),
        r matches Ok(p) ==> ({
            &&& p.1@.len() == nr_cpus
            &&& forall|c: int|
                0 <= c < nr_cpus ==> 0 <= #[trigger] p.1@[c] < cpumasks@.len() && mask_bit(
                    cpumasks@[p.1@[c] as int]@,
                    c,
                )
            &&& p.0@.len() == cpumasks@.len()
            &&& forall|d: int| 0 <= d < p.0@.len() ==> (#[trigger] p.0@[d]).wf()
            &&& forall|d: int, c: int|
                0 <= d < p.0@.len() ==> (#[trigger] p.0@[d].bit(c) <==> (0 <= c < nr_cpus
                    && mask_bit(cpumasks@[d]@, c)))
        }),
        r matches Err(ConfigError::TooManyDomains) ==> cpumasks@.len() > MAX_DOMS,
        r matches Err(ConfigError::BadMask { dom }) ==> dom < cpumasks@.len() && !mask_valid(
            cpumasks@[dom as int]@,
        ),
        r matches Err(ConfigError::CpuOutOfRange { cpu, dom }) ==> dom < cpumasks@.len()
            && mask_bit(cpumasks@[dom as int]@, cpu as int) && cpu >= nr_cpus,
        r matches Err(ConfigError::CpuInTwoMasks { cpu, dom }) ==> dom < cpumasks@.len() && cpu
            < nr_cpus && mask_bit(cpumasks@[dom as int]@, cpu as int) && (exists|d1: int|
            0 <= d1 < dom && #[trigger] mask_bit(cpumasks@[d1]@, cpu as int)),
        r matches Err(ConfigError::CpuNotCovered { cpu }) ==> cpu < nr_cpus && !covered(
            cpumasks@,
            cpu as int,
        ),
{
    let nd = cpumasks.len();
    if nd > MAX_DOMS {
        return Err(ConfigError::TooManyDomains);
    }
    // decode every mask up front
    let mut all_bytes: Vec<Vec<u8>> = Vec::new();
    for d in 0..nd
        invariant
            nd == cpumasks@.len(),
            forall|dd: int|
                0 <= dd < cpumasks@.len() ==> (#[trigger] cpumasks@[dd])@.len() <= 0x1000_0000,
            all_bytes@.len() == d,
            forall|dd: int|
                0 <= dd < d ==> mask_valid((#[trigger] cpumasks@[dd])@) && all_bytes@[dd]@
                    == hex_bytes(cleaned(cpumasks@[dd]@)),
    {
        let cm = clean_mask(&cpumasks[d]);
        proof {
            assert(cleaned(cpumasks@[d as int]@).len() % 2 == 0);
        }
        match hex_decode(&cm) {
            None => {
                proof {
                    assert(!mask_valid(cpumasks@[d as int]@));
                    assert(!masks_valid(cpumasks@, nr_cpus as int));
                }
                return Err(ConfigError::BadMask { dom: d });
            },
            Some(bytes) => {
                all_bytes.push(bytes);
            },
        }
    }
    // no mask may name a CPU the machine does not have
    for d in 0..nd
        invariant
            nd == cpumasks@.len(),
            all_bytes@.len() == nd,
            nr_cpus >= 1,
            forall|dd: int|
                0 <= dd < cpumasks@.len() ==> (#[trigger] cpumasks@[dd])@.len() <= 0x1000_0000,
            forall|dd: int|
                0 <= dd < nd ==> mask_valid((#[trigger] cpumasks@[dd])@) && all_bytes@[dd]@
                    == hex_bytes(cleaned(cpumasks@[dd]@)),
            forall|dd: int, c: int|
                0 <= dd < d && #[trigger] mask_bit(cpumasks@[dd]@, c) ==> c < nr_cpus,
    {
        let nb = all_bytes[d].len();
        proof {
            let msk = cpumasks@[d as int]@;
            let stripped = if msk.len() >= 2 && msk[0] == 0x30 && msk[1] == 0x78 {
                msk.subrange(2, msk.len() as int)
            } else {
                msk
            };
            lemma_no_unders_len(stripped);
            assert(cleaned(msk).len() <= 0x1000_0002);
            assert(all_bytes@[d as int]@.len() <= 0x800_0010);
        }
        let mut c: usize = nr_cpus;
        while c < nb * 8
            invariant
                nd == cpumasks@.len(),
                d < nd,
                all_bytes@.len() == nd,
                nb == all_bytes@[d as int]@.len(),
                nb <= 0x800_0010,
                nr_cpus <= c,
                all_bytes@[d as int]@ == hex_bytes(cleaned(cpumasks@[d as int]@)),
                forall|cc: int|
                    nr_cpus <= cc < c ==> !bytes_bit(all_bytes@[d as int]@, cc),
            decreases nb * 8 - c,
        {
            if bytes_bit_exec(&all_bytes[d], c) {
                proof {
                    assert(mask_bit(cpumasks@[d as int]@, c as int) && c >= nr_cpus);
                    assert(!masks_valid(cpumasks@, nr_cpus as int));
                }
                return Err(ConfigError::CpuOutOfRange { cpu: c, dom: d });
            }
            c = c + 1;
        }
        proof {
            assert forall|cc: int| #[trigger] mask_bit(cpumasks@[d as int]@, cc) implies cc
                < nr_cpus by {
                if cc >= nb * 8 {
                    assert(cc / 8 >= nb) by (nonlinear_arith)
                        requires cc >= nb * 8, nb >= 0;
                } else if cc >= nr_cpus {
                    assert(!bytes_bit(all_bytes@[d as int]@, cc));
                }
            }
        }
    }
    // assign each CPU to the one mask that names it
    let mut cpus: Vec<i32> = Vec::new();
    for c in 0..nr_cpus
        invariant
            nd == cpumasks@.len(),
            nd <= MAX_DOMS,
            all_bytes@.len() == nd,
            forall|dd: int|
                0 <= dd < nd ==> mask_valid((#[trigger] cpumasks@[dd])@) && all_bytes@[dd]@
                    == hex_bytes(cleaned(cpumasks@[dd]@)),
            forall|dd: int, cc: int|
                0 <= dd < nd && #[trigger] mask_bit(cpumasks@[dd]@, cc) ==> cc < nr_cpus,
            cpus@.len() == c,
            forall|cc: int|
                0 <= cc < c ==> 0 <= #[trigger] cpus@[cc] < nd && mask_bit(
                    cpumasks@[cpus@[cc] as int]@,
                    cc,
                ),
            forall|cc: int, dd: int|
                0 <= cc < c && 0 <= dd < nd && dd != cpus@[cc] ==> !#[trigger] mask_bit(
                    cpumasks@[dd]@,
                    cc,
                ),
    {
        let mut found: Option<usize> = None;
        for d in 0..nd
            invariant
                nd == cpumasks@.len(),
                all_bytes@.len() == nd,
                c < nr_cpus,
                forall|dd: int|
                    0 <= dd < nd ==> all_bytes@[dd]@ == hex_bytes(cleaned(cpumasks@[dd]@)),
                match found {
                    None => forall|dd: int|
                        0 <= dd < d ==> !#[trigger] mask_bit(cpumasks@[dd]@, c as int),
                    Some(f) => f < d && mask_bit(cpumasks@[f as int]@, c as int) && forall|dd: int|
                        0 <= dd < d && dd != f ==> !#[trigger] mask_bit(cpumasks@[dd]@, c as int),
                },
        {
            if bytes_bit_exec(&all_bytes[d], c) {
                match found {
                    Some(f) => {
                        proof {
                            assert(mask_bit(cpumasks@[f as int]@, c as int) && mask_bit(
                                cpumasks@[d as int]@,
                                c as int,
                            ) && f < d);
                            assert(!masks_valid(cpumasks@, nr_cpus as int));
                            assert(exists|d1: int|
                                0 <= d1 < d && #[trigger] mask_bit(cpumasks@[d1]@, c as int));
                        }
                        return Err(ConfigError::CpuInTwoMasks { cpu: c, dom: d });
                    },
                    None => {
                        found = Some(d);
                    },
                }
            }
        }
        match found {
            None => {
                proof {
                    assert(!covered(cpumasks@, c as int));
                    assert(!masks_valid(cpumasks@, nr_cpus as int));
                }
                return Err(ConfigError::CpuNotCovered { cpu: c });
            },
            Some(f) => {
                cpus.push(f as i32);
            },
        }
    }
    // build the per-domain cpusets
    let mut cpusets: Vec<Cpumask> = Vec::new();
    for d in 0..nd
        invariant
            nd == cpumasks@.len(),
            all_bytes@.len() == nd,
            nr_cpus <= MAX_CPUS,
            forall|dd: int|
                0 <= dd < nd ==> all_bytes@[dd]@ == hex_bytes(cleaned(cpumasks@[dd]@)),
            cpusets@.len() == d,
            forall|dd: int| 0 <= dd < d ==> (#[trigger] cpusets@[dd]).wf(),
            forall|dd: int, cc: int|
                0 <= dd < d ==> (#[trigger] cpusets@[dd].bit(cc) <==> (0 <= cc < nr_cpus
                    && mask_bit(cpumasks@[dd]@, cc))),
    {
        let mut cm = Cpumask::new();
        for c in 0..nr_cpus
            invariant
                nd == cpumasks@.len(),
                d < nd,
                all_bytes@.len() == nd,
                nr_cpus <= MAX_CPUS,
                all_bytes@[d as int]@ == hex_bytes(cleaned(cpumasks@[d as int]@)),
                cm.wf(),
                forall|j: int|
                    #[trigger] cm.bit(j) <==> (0 <= j < c && mask_bit(cpumasks@[d as int]@, j)),
        {
            if bytes_bit_exec(&all_bytes[d], c) {
                cm.set_cpu(c);
            }
        }
        cpusets.push(cm);
    }
    proof {
        assert forall|d1: int, d2: int, c: int|
            0 <= d1 < d2 < cpumasks@.len() implies !(#[trigger] mask_bit(cpumasks@[d1]@, c)
            && #[trigger] mask_bit(cpumasks@[d2]@, c)) by {
            if mask_bit(cpumasks@[d1]@, c) && mask_bit(cpumasks@[d2]@, c) {
                assert(0 <= c < nr_cpus);
                assert(d1 != cpus@[c] || d2 != cpus@[c]);
            }
        }
        assert forall|c: int| 0 <= c < nr_cpus implies covered(cpumasks@, c) by {
            assert(mask_bit(cpumasks@[cpus@[c] as int]@, c));
        }
        assert(masks_valid(cpumasks@, nr_cpus as int));
    }
    Ok((cpusets, cpus))
}

/// The cache id a CPU reports, with an unreadable id falling back to zero.
pub open spec fn eff_id(ids: Seq<Option<u32>>, c: int) -> u32 {
    match ids[c] {
        Some(x) => x,
        None => 0u32,
    }
}

/// How many of the first `n` CPUs had no readable cache id.
pub open spec fn count_none(ids: Seq<Option<u32>>, n: int) -> int
    decreases n,
{
    if n <= 0 {
        0
    } else {
        count_none(ids, n - 1) + if ids[n - 1] is None {
            1int
        } else {
            0int
        }
    }
}

/// Whether an earlier CPU reports the same cache id as CPU `c`.
pub open spec fn seen_before(ids: Seq<Option<u32>>, c: int) -> bool {
    exists|cc: int| 0 <= cc < c && #[trigger] eff_id(ids, cc) == eff_id(ids, c)
}

/// How many distinct cache ids the first `n` CPUs report.
pub open spec fn num_distinct(ids: Seq<Option<u32>>, n: int) -> int
    decreases n,
{
    if n <= 0 {
        0
    } else {
        num_distinct(ids, n - 1) + if seen_before(ids, n - 1) {
            0int
        } else {
            1int
        }
    }
}


/// Folds one CPU's cache id into the ascending list of distinct ids. The
/// ghost witness sequences carry, for every listed id, a CPU that reported
/// it (`wcc`), and for every CPU seen so far, the position of its id (`widx`).
#[verifier::rlimit(100)]
#[verifier::spinoff_prover]
fn record_cache_id(
    ids: &mut Vec<u32>,
    id: u32,
    Ghost(idv): Ghost<Seq<Option<u32>>>,
    c: usize,
    wit: Ghost<(Seq<int>, Seq<int>)>,
) -> (wit2: Ghost<(Seq<int>, Seq<int>)>)
    requires
        (c as int) < idv.len(),
        id == eff_id(idv, c as int),
        old(ids)@.len() == num_distinct(idv, c as int),
        forall|k1: int, k2: int| 0 <= k1 < k2 < old(ids)@.len() ==> old(ids)@[k1] < old(ids)@[k2],
        wit@.0.len() == old(ids)@.len(),
        forall|k: int|
            0 <= k < old(ids)@.len() ==> 0 <= #[trigger] wit@.0[k] < c && eff_id(idv, wit@.0[k])
                == old(ids)@[k],
        wit@.1.len() == c,
        forall|cc: int|
            0 <= cc < c ==> 0 <= #[trigger] wit@.1[cc] < old(ids)@.len() && old(ids)@[wit@.1[cc]]
                == eff_id(idv, cc),
    ensures
        final(ids)@.len() == num_distinct(idv, c as int + 1),
        forall|k1: int, k2: int|
            0 <= k1 < k2 < final(ids)@.len() ==> final(ids)@[k1] < final(ids)@[k2],
        wit2@.0.len() == final(ids)@.len(),
        forall|k: int|
            0 <= k < final(ids)@.len() ==> 0 <= #[trigger] wit2@.0[k] < c + 1 && eff_id(
                idv,
                wit2@.0[k],
            ) == final(ids)@[k],
        wit2@.1.len() == c + 1,
        forall|cc: int|
            0 <= cc < c + 1 ==> 0 <= #[trigger] wit2@.1[cc] < final(ids)@.len()
                && final(ids)@[wit2@.1[cc]] == eff_id(idv, cc),
{
    let ghost wcc = wit@.0;
    let ghost widx = wit@.1;
    // find the insertion point
    let mut pos: usize = 0;
    loop
        invariant_except_break
            pos <= ids@.len(),
            forall|k: int| 0 <= k < pos ==> (#[trigger] ids@[k]) < id,
        ensures
            pos <= ids@.len(),
            forall|k: int| 0 <= k < pos ==> (#[trigger] ids@[k]) < id,
            pos < ids@.len() ==> ids@[pos as int] >= id,
        decreases ids@.len() - pos,
    {
        if pos >= ids.len() {
            break;
        }
        if ids[pos] < id {
            pos = pos + 1;
        } else {
            break;
        }
    }
    let present = pos < ids.len() && ids[pos] == id;
    if present {
        proof {
            // the id was already reported by the witness CPU of position pos
            assert(eff_id(idv, wcc[pos as int]) == id);
            assert(seen_before(idv, c as int));
        }
        let ghost widx2 = widx.push(pos as int);
        Ghost((wcc, widx2))
    } else {
        proof {
            assert forall|k: int| 0 <= k < ids@.len() implies (#[trigger] ids@[k]) != id by {
                if k > pos && pos < ids@.len() {
                    assert(ids@[pos as int] < ids@[k]);
                }
            }
            // no earlier CPU reported this id
            assert(!seen_before(idv, c as int)) by {
                if seen_before(idv, c as int) {
                    let cc = choose|cc: int|
                        0 <= cc < c && #[trigger] eff_id(idv, cc) == eff_id(idv, c as int);
                    assert(ids@[widx[cc]] == id);
                }
            }
        }
        let ghost old_ids = ids@;
        ids.insert(pos, id);
        proof {
            old_ids.insert_ensures(pos as int, id);
        }
        let ghost wcc2 = wcc.insert(pos as int, c as int);
        let ghost widx2 = Seq::new(c as nat + 1, |cc: int| if cc == c { pos as int } else if widx[cc] < pos { widx[cc] } else { widx[cc] + 1 });
        proof {
            wcc.insert_ensures(pos as int, c as int);
            assert forall|k1: int, k2: int| 0 <= k1 < k2 < ids@.len() implies ids@[k1]
                < ids@[k2] by {
                let o1: int = if k1 < pos { k1 } else { k1 - 1 };
                let o2: int = if k2 < pos { k2 } else { k2 - 1 };
                if k1 == pos {
                    assert(ids@[k2] == old_ids[o2]);
                    assert(old_ids[o2] >= old_ids[pos as int]);
                } else if k2 == pos {
                    assert(ids@[k1] == old_ids[o1]);
                } else {
                    assert(ids@[k1] == old_ids[o1] && ids@[k2] == old_ids[o2]);
                }
            }
            assert forall|k: int| 0 <= k < ids@.len() implies 0 <= #[trigger] wcc2[k] < c + 1
                && eff_id(idv, wcc2[k]) == ids@[k] by {
                if k != pos {
                    let o: int = if k < pos { k } else { k - 1 };
                    assert(ids@[k] == old_ids[o] && wcc2[k] == wcc[o]);
                }
            }
            assert forall|cc: int| 0 <= cc < c + 1 implies 0 <= #[trigger] widx2[cc] < ids@.len()
                && ids@[widx2[cc]] == eff_id(idv, cc) by {
                if cc < c {
                    if widx[cc] < pos {
                        assert(ids@[widx[cc]] == old_ids[widx[cc]]);
                    } else {
                        assert(ids@[widx[cc] + 1] == old_ids[widx[cc]]);
                    }
                }
            }
        }
        Ghost((wcc2, widx2))
    }
}

/// Groups CPUs into domains by their cache id: distinct ids get consecutive
/// domain ids in ascending id order; CPUs without a readable id count as id
/// zero and are tallied. Returns the per-domain cpusets, the per-CPU domain,
/// the number of unreadable ids, and the ascending cache id of each domain.
#[verifier::rlimit(100)]
pub fn domains_from_cache_ids(cache_ids: &Vec<Option<u32>>) -> (r: Result<
    (Vec<Cpumask>, Vec<i32>, usize, Vec<u32>),
    ConfigError,
>)
    requires
        1 <= cache_ids@.len() <= MAX_CPUS,
    ensures
        r is Ok <==> num_distinct(cache_ids@, cache_ids@.len() as int) <= MAX_DOMS,
        r matches Err(e) ==> e == (ConfigError::TooManyDomains),
        r matches Ok(p) ==> ({
            let (cpusets, cpu_dom, nnf, ids) = p;
            let n = cache_ids@.len() as int;
            &&& nnf == count_none(cache_ids@, n)
            &&& ids@.len() == num_distinct(cache_ids@, n)
            &&& forall|k1: int, k2: int| 0 <= k1 < k2 < ids@.len() ==> ids@[k1] < ids@[k2]
            &&& cpu_dom@.len() == n
            &&& forall|c: int|
                0 <= c < n ==> 0 <= #[trigger] cpu_dom@[c] < ids@.len() && ids@[cpu_dom@[c] as int]
                    == eff_id(cache_ids@, c)
            &&& cpusets@.len() == ids@.len()
            &&& forall|d: int, c: int|
                0 <= d < cpusets@.len() ==> (#[trigger] cpusets@[d].bit(c) <==> (0 <= c < n
                    && cpu_dom@[c] == d))
            &&& forall|d: int| 0 <= d < cpusets@.len() ==> (#[trigger] cpusets@[d]).wf()
        }),
{
    let n = cache_ids.len();
    let ghost idv = cache_ids@;
    let mut ids: Vec<u32> = Vec::new();
    let mut nnf: usize = 0;
    let mut wit: Ghost<(Seq<int>, Seq<int>)> = Ghost((Seq::empty(), Seq::empty()));
    let mut c: usize = 0;
    while c < n
        invariant
            c <= n,
            n == idv.len(),
            idv == cache_ids@,
            nnf == count_none(idv, c as int),
            nnf <= c,
            ids@.len() == num_distinct(idv, c as int),
            forall|k1: int, k2: int| 0 <= k1 < k2 < ids@.len() ==> ids@[k1] < ids@[k2],
            wit@.0.len() == ids@.len(),
            forall|k: int|
                0 <= k < ids@.len() ==> 0 <= #[trigger] wit@.0[k] < c && eff_id(idv, wit@.0[k])
                    == ids@[k],
            wit@.1.len() == c,
            forall|cc: int|
                0 <= cc < c ==> 0 <= #[trigger] wit@.1[cc] < ids@.len() && ids@[wit@.1[cc]]
                    == eff_id(idv, cc),
        decreases n - c,
    {
        let id: u32 = match cache_ids[c] {
            Some(x) => x,
            None => {
                nnf = nnf + 1;
                0
            },
        };
        assert(id == eff_id(idv, c as int));
        wit = record_cache_id(&mut ids, id, Ghost(idv), c, wit);
        c = c + 1;
    }
    let nd = ids.len();
    if nd > MAX_DOMS {
        return Err(ConfigError::TooManyDomains);
    }
    // assign each CPU the rank of its cache id
    let mut cpu_dom: Vec<i32> = Vec::new();
    for c in 0..n
        invariant
            n == idv.len(),
            idv == cache_ids@,
            nd == ids@.len(),
            nd <= MAX_DOMS,
            wit@.1.len() == n,
            forall|cc: int|
                0 <= cc < n ==> 0 <= #[trigger] wit@.1[cc] < nd && ids@[wit@.1[cc]] == eff_id(
                    idv,
                    cc,
                ),
            cpu_dom@.len() == c,
            forall|cc: int|
                0 <= cc < c ==> 0 <= #[trigger] cpu_dom@[cc] < nd && ids@[cpu_dom@[cc] as int]
                    == eff_id(idv, cc),
    {
        let id: u32 = match cache_ids[c] {
            Some(x) => x,
            None => 0,
        };
        let mut k: usize = 0;
        loop
            invariant_except_break
                nd == ids@.len(),
                id == eff_id(idv, c as int),
                c < n,
                n == idv.len(),
                wit@.1.len() == n,
                0 <= wit@.1[c as int] < nd && ids@[wit@.1[c as int]] == eff_id(idv, c as int),
                k <= nd,
                forall|kk: int| 0 <= kk < k ==> (#[trigger] ids@[kk]) != id,
            ensures
                k < nd,
                ids@[k as int] == eff_id(idv, c as int),
            decreases nd - k,
        {
            if k >= nd {
                proof {
                    assert(ids@[wit@.1[c as int]] != id);
                    assert(false);
                }
                break;
            }
            if ids[k] == id {
                break;
            }
            k = k + 1;
        }
        cpu_dom.push(k as i32);
    }
    // build the per-domain cpusets
    let mut cpusets: Vec<Cpumask> = Vec::new();
    for d in 0..nd
        invariant
            n == idv.len(),
            n <= MAX_CPUS,
            nd <= MAX_DOMS,
            cpu_dom@.len() == n,
            cpusets@.len() == d,
            forall|dd: int| 0 <= dd < d ==> (#[trigger] cpusets@[dd]).wf(),
            forall|dd: int, cc: int|
                0 <= dd < d ==> (#[trigger] cpusets@[dd].bit(cc) <==> (0 <= cc < n
                    && cpu_dom@[cc] == dd)),
    {
        let mut cm = Cpumask::new();
        for c in 0..n
            invariant
                n == idv.len(),
                n <= MAX_CPUS,
                nd <= MAX_DOMS,
                d < nd,
                cpu_dom@.len() == n,
                cm.wf(),
                forall|j: int| #[trigger] cm.bit(j) <==> (0 <= j < c && cpu_dom@[j] == d),
        {
            if cpu_dom[c] == d as i32 {
                cm.set_cpu(c);
            }
        }
        cpusets.push(cm);
    }
    Ok((cpusets, cpu_dom, nnf, ids))
}

} // verus!
