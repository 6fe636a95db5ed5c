//! Hardware snapshot and the model-tier decision.

use vstd::prelude::*;

verus! {

/// Inference tier.
#[derive(Debug, Clone, Copy, PartialEq, Eq, PartialOrd, Ord, Hash, Structural)]
pub enum Tier {
    Lite,
    Standard,
    Pro,
}

/// Rank of a tier: lite < standard < pro.
pub open spec fn tier_rank(t: Tier) -> int {
    match t {
        Tier::Lite => 0,
        Tier::Standard => 1,
        Tier::Pro => 2,
    }
}

pub struct GpuInfo {
    pub name: String,
    /// Dedicated VRAM in MiB, when reported by the driver.
    pub vram_mib: Option<u64>,
}

/// Snapshot of the machine.
pub struct HardwareInfo {
    pub cpu_cores: u32,
    pub total_ram_mib: u64,
    pub gpus: Vec<GpuInfo>,
    pub free_disk_mib: u64,
}

/// `m` is the largest VRAM any GPU of `gs` reports.
pub open spec fn is_max_vram(gs: Seq<GpuInfo>, m: u64) -> bool {
    &&& exists|i: int| 0 <= i < gs.len() && gs[i].vram_mib == Some(m)
    &&& forall|i: int| 0 <= i < gs.len() && (#[trigger] gs[i].vram_mib) is Some ==> gs[i].vram_mib->0 <= m
}

/// No GPU of `gs` reports its VRAM.
pub open spec fn no_vram(gs: Seq<GpuInfo>) -> bool {
    forall|i: int| 0 <= i < gs.len() ==> (#[trigger] gs[i].vram_mib) is None
}

/// Best VRAM across `gs`: none when no GPU reports one.
pub open spec fn spec_max_vram(gs: Seq<GpuInfo>) -> Option<u64> {
    if no_vram(gs) {
        None
    } else {
        Some(choose|m: u64| is_max_vram(gs, m))
    }
}

/// The tier for a best VRAM figure: none or under 4 GiB is lite, under
/// 12 GiB is standard, anything larger is pro.
pub open spec fn tier_for_vram(v: Option<u64>) -> Tier {
    match v {
        None => Tier::Lite,
        Some(m) => if m < 4 * 1024 {
            Tier::Lite
        } else if m < 12 * 1024 {
            Tier::Standard
        } else {
            Tier::Pro
        },
    }
}

impl HardwareInfo {
    /// Best available VRAM across GPUs, if any GPU reports one.
    pub fn max_vram_mib(&self) -> (r: Option<u64>)
        ensures
            match r {
                None => no_vram(self.gpus@),
                Some(m) => is_max_vram(self.gpus@, m),
            },
            r == spec_max_vram(self.gpus@),
    {
        let mut best: Option<u64> = None;
        let mut i: usize = 0;
        while i < self.gpus.len()
            invariant
                i <= self.gpus@.len(),
                match best {
                    None => no_vram(self.gpus@.take(i as int)),
                    Some(m) => is_max_vram(self.gpus@.take(i as int), m),
                },
            decreases self.gpus@.len() - i,
        {
            let ghost prev = self.gpus@.take(i as int);
            let ghost next = self.gpus@.take(i + 1);
            assert(next =~= prev.push(self.gpus@[i as int]));
            match self.gpus[i].vram_mib {
                Some(v) => {
                    match best {
                        None => {
                            best = Some(v);
                            assert(next[i as int].vram_mib == Some(v));
                        },
                        Some(m) => {
                            if v > m {
                                best = Some(v);
                                assert(next[i as int].vram_mib == Some(v));
                            } else {
                                proof {
                                    let w = choose|j: int| 0 <= j < prev.len() && prev[j].vram_mib == Some(m);
                                    assert(next[w].vram_mib == Some(m));
                                }
                            }
                        },
                    }
                },
                None => {
                    match best {
                        None => {},
                        Some(m) => {
                            proof {
                                let w = choose|j: int| 0 <= j < prev.len() && prev[j].vram_mib == Some(m);
                                assert(next[w].vram_mib == Some(m));
                            }
                        },
                    }
                },
            }
            i += 1;
        }
        assert(self.gpus@.take(self.gpus@.len() as int) =~= self.gpus@);
        proof {
            if let Some(m) = best {
                let c = choose|m: u64| is_max_vram(self.gpus@, m);
                let wi = choose|i: int| 0 <= i < self.gpus@.len() && self.gpus@[i].vram_mib == Some(m);
                let wc = choose|i: int| 0 <= i < self.gpus@.len() && self.gpus@[i].vram_mib == Some(c);
                assert(self.gpus@[wi].vram_mib is Some);
                assert(self.gpus@[wc].vram_mib is Some);
                assert(m <= c && c <= m);
            }
        }
        best
    }

    /// The tier that the best VRAM figure selects.
    pub fn decide_tier(&self) -> (t: Tier)
        ensures
            t == tier_for_vram(spec_max_vram(self.gpus@)),
    {
        let vram = self.max_vram_mib();
        match vram {
            None => Tier::Lite,
            Some(v) => if v < 4 * 1024 {
                Tier::Lite
            } else if v < 12 * 1024 {
                Tier::Standard
            } else {
                Tier::Pro
            },
        }
    }
}

/// What the desktop shell reports about the machine: the snapshot and the
/// tier it selects.
pub struct HardwareReport {
    pub info: HardwareInfo,
    pub tier: Tier,
}

impl HardwareReport {
    /// Report for a probed snapshot.
    pub fn from_info(info: HardwareInfo) -> (r: HardwareReport)
        ensures
            r.info == info,
            r.tier == tier_for_vram(spec_max_vram(info.gpus@)),
    {
        let tier = info.decide_tier();
        HardwareReport { info, tier }
    }
}

/// GPUs as listed by the system-information probe: it reports no VRAM
/// figures, so the list is empty.
pub fn sysinfo_components_gpus() -> (g: Vec<GpuInfo>)
    ensures
        g@.len() == 0,
{
    Vec::new()
}

/// Free disk space figure of the probe: not measured, reported as zero.
pub fn free_disk_mib() -> (m: u64)
    ensures
        m == 0,
{
    0
}

impl HardwareInfo {
    /// Snapshot from the probe's readings: the available parallelism as the
    /// core count (one when it is unknown), the total memory in whole MiB,
    /// the probed GPUs and the free disk figure.
    pub fn from_readings(parallelism: Option<usize>, total_memory_bytes: u64) -> (h: HardwareInfo)
        ensures
            h.cpu_cores == (match parallelism {
                Some(n) => n as u32,
                None => 1u32,
            }),
            h.total_ram_mib == total_memory_bytes / 1048576u64,
            h.gpus@.len() == 0,
            h.free_disk_mib == 0,
    {
        let cpu_cores: u32 = match parallelism {
            Some(n) => n as u32,
            None => 1,
        };
        HardwareInfo {
            cpu_cores,
            total_ram_mib: total_memory_bytes / (1024 * 1024),
            gpus: sysinfo_components_gpus(),
            free_disk_mib: free_disk_mib(),
        }
    }
}

/// More VRAM never selects a lower tier.
pub proof fn law_tier_monotone_in_vram(a: u64, b: u64)
    requires
        a <= b,
    ensures
        tier_rank(tier_for_vram(Some(a))) <= tier_rank(tier_for_vram(Some(b))),
        tier_rank(tier_for_vram(None)) <= tier_rank(tier_for_vram(Some(a))),
{
}


/// A list where some GPU reports VRAM has a largest reported figure.
proof fn lemma_max_vram_exists(gs: Seq<GpuInfo>)
    requires
        !no_vram(gs),
    ensures
        exists|m: u64| is_max_vram(gs, m),
    decreases gs.len(),
{
    let p = gs.drop_last();
    let last = gs.last();
    if no_vram(p) {
        assert(last.vram_mib is Some) by {
            let i = choose|i: int| 0 <= i < gs.len() && !(gs[i].vram_mib is None);
            if i < p.len() {
                assert(p[i] == gs[i]);
            }
        }
        let m = last.vram_mib->0;
        assert forall|i: int| 0 <= i < gs.len() && (#[trigger] gs[i].vram_mib) is Some implies gs[i].vram_mib->0 <= m by {
            if i < p.len() {
                assert(p[i] == gs[i]);
            }
        }
        assert(gs[gs.len() - 1].vram_mib == Some(m));
        assert(is_max_vram(gs, m));
    } else {
        lemma_max_vram_exists(p);
        let mp = choose|m: u64| is_max_vram(p, m);
        let wp = choose|i: int| 0 <= i < p.len() && p[i].vram_mib == Some(mp);
        assert(gs[wp] == p[wp]);
        let m: u64 = match last.vram_mib {
            Some(v) => if v > mp { v } else { mp },
            None => mp,
        };
        assert forall|i: int| 0 <= i < gs.len() && (#[trigger] gs[i].vram_mib) is Some implies gs[i].vram_mib->0 <= m by {
            if i < p.len() {
                assert(p[i] == gs[i]);
                assert(p[i].vram_mib is Some);
            }
        }
        if m == mp {
            assert(gs[wp].vram_mib == Some(m));
        } else {
            assert(gs[gs.len() - 1].vram_mib == Some(m));
        }
        assert(is_max_vram(gs, m));
    }
}

/// Adding a GPU never selects a lower tier.
pub proof fn law_more_gpus_never_lower_tier(gs: Seq<GpuInfo>, g: GpuInfo)
    ensures
        tier_rank(tier_for_vram(spec_max_vram(gs))) <= tier_rank(tier_for_vram(spec_max_vram(gs.push(g)))),
{
    let ext = gs.push(g);
    if !no_vram(gs) {
        lemma_max_vram_exists(gs);
        let wi = choose|i: int| 0 <= i < gs.len() && !(gs[i].vram_mib is None);
        assert(ext[wi] == gs[wi]);
        assert(!no_vram(ext));
        lemma_max_vram_exists(ext);
        let ma = choose|m: u64| is_max_vram(gs, m);
        let mb = choose|m: u64| is_max_vram(ext, m);
        let k = choose|i: int| 0 <= i < gs.len() && gs[i].vram_mib == Some(ma);
        assert(ext[k] == gs[k]);
        assert(ext[k].vram_mib is Some);
        assert(ma <= mb);
        law_tier_monotone_in_vram(ma, mb);
    } else {
        law_tier_monotone_in_vram(0, 0);
        if !no_vram(ext) {
            lemma_max_vram_exists(ext);
            let mb = choose|m: u64| is_max_vram(ext, m);
            law_tier_monotone_in_vram(mb, mb);
        }
    }
}
} // verus!
