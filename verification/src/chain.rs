//! The cluster-chain model: what one read call delivers, what a whole chain
//! holds, and how the two compose.
//!
//! `spec_read_step` is the exact meaning of one `FS::file_read` call as a
//! function of the cursor state; `spec_rest_content` is the bytes a chain
//! still owes from a cursor position on. The lemmas here tie them together:
//! every read takes a prefix of the remaining content, so driving a cursor
//! to the end delivers the chain's content, whole clusters at a time.

use vstd::prelude::*;

use crate::FsError;
use crate::bootsector::BootSector;
use crate::codec;
use crate::device::SECTOR_SIZE;
use crate::fs::spec_disk_fat_entry;

verus! {

/// Whether `c` numbers a real data cluster: the first two FAT entries are
/// reserved, and values past 0xFEF are sentinels or reserved codes.
pub open spec fn spec_valid_cluster(c: u16) -> bool {
    2 <= c <= 0xFEF
}

/// The chain link that follows `cluster`: its FAT entry, or the end-of-chain
/// sentinel when the entry's packed bytes fall outside the FAT.
pub open spec fn spec_next_cluster(disk: Seq<u8>, boot: BootSector, cluster: int) -> u16 {
    if codec::entry_byte_index(cluster) + 1 < boot.spec_fat_size() * (SECTOR_SIZE as int) {
        spec_disk_fat_entry(disk, boot, cluster)
    } else {
        0xFF8
    }
}

/// One read call over a cluster chain, as a function of the cursor state:
/// the bytes delivered, then the cluster, consumed-sector count and finished
/// flag the cursor is left with.
///
/// Starting at `cluster` with `consumed` sectors of it already delivered and
/// room for `cap` more sectors, the call delivers whole sectors of the chain
/// until the buffer is full or the chain ends. A cluster that is not a valid
/// data cluster ends the chain at once; a finished cursor is rewound to
/// `first`. A cluster whose sectors cannot be addressed in 16 bits is a
/// bounds error; a read past the end of the disk is an I/O error.
pub open spec fn spec_read_step(
    disk: Seq<u8>,
    boot: BootSector,
    first: u16,
    cluster: u16,
    consumed: u16,
    cap: u16,
) -> Result<(Seq<u8>, u16, u16, bool), FsError>
    decreases cap,
{
    let csize = boot.spec_cluster_size();
    if !spec_valid_cluster(cluster) {
        Ok((Seq::empty(), first, 0u16, true))
    } else if consumed >= csize || cap == 0 {
        Ok((Seq::empty(), cluster, consumed, false))
    } else if boot.spec_cluster_offset(cluster as int) + csize > 0x10000 {
        Err(FsError::Bounds)
    } else {
        let count = if csize - consumed <= cap { csize - consumed } else { cap as int };
        let lba = boot.spec_cluster_offset(cluster as int) + consumed;
        if (lba + count) * (SECTOR_SIZE as int) > disk.len() {
            Err(FsError::Io)
        } else {
            let delivered = disk.subrange(
                lba * (SECTOR_SIZE as int),
                (lba + count) * (SECTOR_SIZE as int),
            );
            if consumed + count < csize {
                Ok((delivered, cluster, (consumed + count) as u16, false))
            } else {
                let next = spec_next_cluster(disk, boot, cluster as int);
                if next >= 0xFF8 {
                    Ok((delivered, first, 0u16, true))
                } else if cap == count {
                    Ok((delivered, next, 0u16, false))
                } else {
                    match spec_read_step(disk, boot, first, next, 0u16, (cap - count) as u16) {
                        Err(e) => Err(e),
                        Ok(t) => Ok((delivered + t.0, t.1, t.2, t.3)),
                    }
                }
            }
        }
    }
}
/// The fuel bound used when following a cluster chain in specifications: a
/// FAT12 table has fewer than 0x1000 entries, so any acyclic chain is
/// shorter than this.
pub open spec fn spec_chain_fuel() -> nat {
    0x1000
}

/// The bytes a cluster chain still holds from a cursor position on: the rest
/// of the current cluster, then every following cluster whole, up to the
/// end-of-chain sentinel.
///
/// A chain that needs more than `fuel` links is reported as a bounds error
/// (with enough fuel that means the chain is cyclic), as is a cluster whose
/// sectors cannot be addressed in 16 bits; a cluster lying beyond the end of
/// the disk is an I/O error.
pub open spec fn spec_rest_content(
    disk: Seq<u8>,
    boot: BootSector,
    cluster: u16,
    consumed: u16,
    fuel: nat,
) -> Result<Seq<u8>, FsError>
    decreases fuel,
{
    let csize = boot.spec_cluster_size();
    if !spec_valid_cluster(cluster) {
        Ok(Seq::empty())
    } else if consumed >= csize {
        Ok(Seq::empty())
    } else if boot.spec_cluster_offset(cluster as int) + csize > 0x10000 {
        Err(FsError::Bounds)
    } else if (boot.spec_cluster_offset(cluster as int) + csize) * (SECTOR_SIZE as int)
        > disk.len() {
        Err(FsError::Io)
    } else if fuel == 0 {
        Err(FsError::Bounds)
    } else {
        let tail = disk.subrange(
            (boot.spec_cluster_offset(cluster as int) + consumed) * (SECTOR_SIZE as int),
            (boot.spec_cluster_offset(cluster as int) + csize) * (SECTOR_SIZE as int),
        );
        let next = spec_next_cluster(disk, boot, cluster as int);
        if next >= 0xFF8 {
            Ok(tail)
        } else {
            match spec_rest_content(disk, boot, next, 0u16, (fuel - 1) as nat) {
                Err(e) => Err(e),
                Ok(s) => Ok(tail + s),
            }
        }
    }
}

/// The whole content of the cluster chain that starts at `first`: what a
/// caller that reads a fresh cursor to the end receives.
pub open spec fn spec_chain_content(disk: Seq<u8>, boot: BootSector, first: u16) -> Result<
    Seq<u8>,
    FsError,
> {
    spec_rest_content(disk, boot, first, 0u16, spec_chain_fuel())
}

/// More fuel never changes the content of a chain that already resolves:
/// fuel only bounds how many links may be followed.
pub proof fn lemma_rest_content_monotonic(
    disk: Seq<u8>,
    boot: BootSector,
    cluster: u16,
    consumed: u16,
    fuel1: nat,
    fuel2: nat,
)
    requires
        fuel1 <= fuel2,
        spec_rest_content(disk, boot, cluster, consumed, fuel1) is Ok,
    ensures
        spec_rest_content(disk, boot, cluster, consumed, fuel2) == spec_rest_content(
            disk,
            boot,
            cluster,
            consumed,
            fuel1,
        ),
    decreases fuel1,
{
    let csize = boot.spec_cluster_size();
    if !spec_valid_cluster(cluster) || consumed >= csize {
    } else {
        let next = spec_next_cluster(disk, boot, cluster as int);
        if next >= 0xFF8 {
        } else {
            lemma_rest_content_monotonic(
                disk,
                boot,
                next,
                0u16,
                (fuel1 - 1) as nat,
                (fuel2 - 1) as nat,
            );
        }
    }
}

/// The content of a chain is at most one cluster per unit of fuel, plus the
/// cluster the cursor stands in.
pub proof fn lemma_rest_content_len(
    disk: Seq<u8>,
    boot: BootSector,
    cluster: u16,
    consumed: u16,
    fuel: nat,
)
    requires
        spec_rest_content(disk, boot, cluster, consumed, fuel) is Ok,
    ensures
        spec_rest_content(disk, boot, cluster, consumed, fuel)->Ok_0.len() <= (fuel + 1)
            * boot.spec_cluster_size() * (SECTOR_SIZE as int),
    decreases fuel,
{
    let csize = boot.spec_cluster_size();
    let all = spec_rest_content(disk, boot, cluster, consumed, fuel)->Ok_0;
    if !spec_valid_cluster(cluster) || consumed >= csize {
        assert(all.len() == 0);
        assert(0 <= (fuel + 1) * csize * (SECTOR_SIZE as int)) by (nonlinear_arith)
            requires
                csize >= 0,
        ;
    } else {
        let next = spec_next_cluster(disk, boot, cluster as int);
        if next >= 0xFF8 {
            assert(all.len() == (csize - consumed) * (SECTOR_SIZE as int));
            assert((csize - consumed) * (SECTOR_SIZE as int) <= (fuel + 1) * csize * (SECTOR_SIZE
                as int)) by (nonlinear_arith)
                requires
                    0 <= consumed,
                    csize >= 1,
            ;
        } else {
            lemma_rest_content_len(disk, boot, next, 0u16, (fuel - 1) as nat);
            let inner = spec_rest_content(disk, boot, next, 0u16, (fuel - 1) as nat)->Ok_0;
            assert(all.len() == (csize - consumed) * (SECTOR_SIZE as int) + inner.len());
            assert((csize - consumed) * (SECTOR_SIZE as int) + ((fuel - 1) + 1) * csize * (
            SECTOR_SIZE as int) <= (fuel + 1) * csize * (SECTOR_SIZE as int)) by (nonlinear_arith)
                requires
                    0 <= consumed,
                    csize >= 1,
                    fuel >= 1,
            ;
        }
    }
}

/// One read call consumes a prefix of the remaining chain content: what it
/// delivers is exactly the front of the content, the cursor it leaves
/// behind owns exactly the remainder, and a finished call has delivered
/// everything. An unfinished call fills the whole buffer.
pub proof fn lemma_read_step_rest(
    disk: Seq<u8>,
    boot: BootSector,
    first: u16,
    cluster: u16,
    consumed: u16,
    cap: u16,
    fuel: nat,
)
    requires
        boot.wf(),
        cap >= 1,
        !spec_valid_cluster(cluster) || consumed < boot.spec_cluster_size(),
        spec_rest_content(disk, boot, cluster, consumed, fuel) is Ok,
    ensures
        ({
            let all = spec_rest_content(disk, boot, cluster, consumed, fuel)->Ok_0;
            let step = spec_read_step(disk, boot, first, cluster, consumed, cap);
            &&& step matches Ok(t)
            &&& t.0.len() <= all.len()
            &&& t.0 == all.take(t.0.len() as int)
            &&& (t.3 ==> t.0 == all && t.1 == first && t.2 == 0)
            &&& (!t.3 ==> t.0.len() == cap * (SECTOR_SIZE as int) && spec_rest_content(
                disk,
                boot,
                t.1,
                t.2,
                fuel,
            ) == Ok::<Seq<u8>, FsError>(all.skip(t.0.len() as int)) && (!spec_valid_cluster(t.1)
                || t.2 < boot.spec_cluster_size()))
        }),
    decreases cap,
{
    let csize = boot.spec_cluster_size();
    let all = spec_rest_content(disk, boot, cluster, consumed, fuel)->Ok_0;
    let step = spec_read_step(disk, boot, first, cluster, consumed, cap);
    if !spec_valid_cluster(cluster) {
        assert(all =~= Seq::empty());
    } else {
        let off = boot.spec_cluster_offset(cluster as int);
        let count = if csize - consumed <= cap {
            csize - consumed
        } else {
            cap as int
        };
        let lba = off + consumed;
        assert((lba + count) * (SECTOR_SIZE as int) <= (off + csize) * (SECTOR_SIZE as int))
            by (nonlinear_arith)
            requires
                lba + count <= off + csize,
        ;
        let tail = disk.subrange(
            lba * (SECTOR_SIZE as int),
            (off + csize) * (SECTOR_SIZE as int),
        );
        let delivered = disk.subrange(
            lba * (SECTOR_SIZE as int),
            (lba + count) * (SECTOR_SIZE as int),
        );
        assert((lba + count) * (SECTOR_SIZE as int) == lba * (SECTOR_SIZE as int) + count * (
        SECTOR_SIZE as int)) by (nonlinear_arith);
        assert((off + csize) * (SECTOR_SIZE as int) == lba * (SECTOR_SIZE as int) + (csize
            - consumed) * (SECTOR_SIZE as int)) by (nonlinear_arith)
            requires
                lba == off + consumed,
        ;
        assert(delivered =~= tail.take(count * (SECTOR_SIZE as int)));
        let next = spec_next_cluster(disk, boot, cluster as int);
        if consumed + count < csize {
            // the buffer filled up inside the current cluster
            assert(count == cap);
            if next >= 0xFF8 {
                assert(all == tail);
            } else {
                assert(all == tail + spec_rest_content(disk, boot, next, 0u16, (fuel - 1) as nat)->Ok_0);
            }
            let rest2 = spec_rest_content(disk, boot, cluster, (consumed + count) as u16, fuel);
            assert(((off + consumed + count) * (SECTOR_SIZE as int)) == lba * (SECTOR_SIZE as int)
                + count * (SECTOR_SIZE as int)) by (nonlinear_arith)
                requires
                    lba == off + consumed,
            ;
            let tail2 = disk.subrange(
                (off + consumed + count) * (SECTOR_SIZE as int),
                (off + csize) * (SECTOR_SIZE as int),
            );
            assert(tail2 =~= tail.skip(count * (SECTOR_SIZE as int)));
            if next >= 0xFF8 {
                assert(rest2 == Ok::<Seq<u8>, FsError>(tail2));
                assert(all.skip(count * (SECTOR_SIZE as int)) =~= tail2);
            } else {
                let inner = spec_rest_content(disk, boot, next, 0u16, (fuel - 1) as nat)->Ok_0;
                assert(rest2 == Ok::<Seq<u8>, FsError>(tail2 + inner));
                assert(all.skip(count * (SECTOR_SIZE as int)) =~= tail2 + inner);
            }
            assert(delivered =~= all.take(count * (SECTOR_SIZE as int)));
        } else {
            // the current cluster is exhausted by this transfer
            assert(count == csize - consumed);
            assert(delivered =~= tail);
            if next >= 0xFF8 {
                assert(all == tail);
                assert(step == Ok::<(Seq<u8>, u16, u16, bool), FsError>(
                    (delivered, first, 0u16, true),
                ));
                assert(delivered =~= all.take(delivered.len() as int));
            } else {
                let inner = spec_rest_content(disk, boot, next, 0u16, (fuel - 1) as nat);
                let inner_s = inner->Ok_0;
                assert(all == tail + inner_s);
                if cap == count {
                    lemma_rest_content_monotonic(disk, boot, next, 0u16, (fuel - 1) as nat, fuel);
                    assert(all.skip(count * (SECTOR_SIZE as int)) =~= inner_s);
                    assert(delivered =~= all.take(count * (SECTOR_SIZE as int)));
                } else {
                    lemma_read_step_rest(
                        disk,
                        boot,
                        first,
                        next,
                        0u16,
                        (cap - count) as u16,
                        (fuel - 1) as nat,
                    );
                    let t1 = spec_read_step(
                        disk,
                        boot,
                        first,
                        next,
                        0u16,
                        (cap - count) as u16,
                    )->Ok_0;
                    assert(step == Ok::<(Seq<u8>, u16, u16, bool), FsError>(
                        (delivered + t1.0, t1.1, t1.2, t1.3),
                    ));
                    assert(t1.0 == inner_s.take(t1.0.len() as int));
                    assert(delivered + t1.0 =~= all.take(
                        count * (SECTOR_SIZE as int) + t1.0.len() as int,
                    ));
                    if t1.3 {
                        assert(t1.0 == inner_s);
                        assert(delivered + t1.0 =~= all);
                    } else {
                        assert(t1.0.len() == (cap - count) * (SECTOR_SIZE as int));
                        assert((delivered + t1.0).len() == cap * (SECTOR_SIZE as int))
                            by (nonlinear_arith)
                            requires
                                delivered.len() == count * (SECTOR_SIZE as int),
                                t1.0.len() == (cap - count) * (SECTOR_SIZE as int),
                        ;
                        lemma_rest_content_monotonic(disk, boot, t1.1, t1.2, (fuel - 1) as nat, fuel);
                        assert(spec_rest_content(disk, boot, t1.1, t1.2, fuel) == Ok::<
                            Seq<u8>,
                            FsError,
                        >(inner_s.skip(t1.0.len() as int)));
                        assert(all.skip((delivered + t1.0).len() as int) =~= inner_s.skip(
                            t1.0.len() as int,
                        ));
                    }
                }
            }
        }
    }
}

/// The most read calls a whole-chain read may take before the driver calls
/// Streaming a chain from its start delivers whole clusters: the total byte
/// count of a chain's content is a multiple of the cluster size. Together
/// with the contract of `file_read_to_end`, the bytes a caller receives for
/// a file are its size rounded up to cluster granularity.
pub proof fn lemma_chain_content_cluster_granularity(
    disk: Seq<u8>,
    boot: BootSector,
    cluster: u16,
    fuel: nat,
)
    requires
        boot.wf(),
        spec_rest_content(disk, boot, cluster, 0u16, fuel) is Ok,
    ensures
        spec_rest_content(disk, boot, cluster, 0u16, fuel)->Ok_0.len() as int % (
        boot.spec_cluster_size() * (SECTOR_SIZE as int)) == 0,
    decreases fuel,
{
    let csize = boot.spec_cluster_size();
    let m = csize * (SECTOR_SIZE as int);
    assert(m >= 512) by (nonlinear_arith)
        requires
            csize >= 1,
            m == csize * (SECTOR_SIZE as int),
            SECTOR_SIZE == 512,
    ;
    let all = spec_rest_content(disk, boot, cluster, 0u16, fuel)->Ok_0;
    if !spec_valid_cluster(cluster) {
        assert(0int % m == 0) by (nonlinear_arith)
            requires
                m > 0,
        ;
    } else {
        let next = spec_next_cluster(disk, boot, cluster as int);
        assert((csize - 0) * (SECTOR_SIZE as int) == m) by (nonlinear_arith)
            requires
                m == csize * (SECTOR_SIZE as int),
        ;
        if next >= 0xFF8 {
            assert(all.len() == m);
            vstd::arithmetic::div_mod::lemma_mod_self_0(m);
        } else {
            lemma_chain_content_cluster_granularity(disk, boot, next, (fuel - 1) as nat);
            let inner = spec_rest_content(disk, boot, next, 0u16, (fuel - 1) as nat)->Ok_0;
            assert(all.len() == m + inner.len());
            vstd::arithmetic::div_mod::lemma_mod_multiples_vanish(1, inner.len() as int, m);
            assert(m * 1 + inner.len() == all.len()) by (nonlinear_arith)
                requires
                    all.len() == m + inner.len(),
            ;
        }
    }
}

/// The clusters a chain visits, in order, while it resolves within `fuel`
/// links.
pub open spec fn spec_chain_clusters(disk: Seq<u8>, boot: BootSector, cluster: u16, fuel: nat) -> Seq<
    int,
>
    decreases fuel,
{
    if !spec_valid_cluster(cluster) || fuel == 0 {
        Seq::empty()
    } else {
        let next = spec_next_cluster(disk, boot, cluster as int);
        if next >= 0xFF8 {
            seq![cluster as int]
        } else {
            seq![cluster as int] + spec_chain_clusters(disk, boot, next, (fuel - 1) as nat)
        }
    }
}

/// More fuel never changes which clusters a resolving chain visits.
pub proof fn lemma_chain_clusters_monotonic(
    disk: Seq<u8>,
    boot: BootSector,
    cluster: u16,
    fuel1: nat,
    fuel2: nat,
)
    requires
        boot.wf(),
        fuel1 <= fuel2,
        spec_rest_content(disk, boot, cluster, 0u16, fuel1) is Ok,
    ensures
        spec_chain_clusters(disk, boot, cluster, fuel2) == spec_chain_clusters(
            disk,
            boot,
            cluster,
            fuel1,
        ),
    decreases fuel1,
{
    if !spec_valid_cluster(cluster) {
        assert(spec_chain_clusters(disk, boot, cluster, fuel2) =~= spec_chain_clusters(
            disk,
            boot,
            cluster,
            fuel1,
        ));
    } else {
        let next = spec_next_cluster(disk, boot, cluster as int);
        if next >= 0xFF8 {
        } else {
            lemma_chain_clusters_monotonic(
                disk,
                boot,
                next,
                (fuel1 - 1) as nat,
                (fuel2 - 1) as nat,
            );
        }
    }
}

/// Wherever a cluster occurs in a resolving chain, the chain from that
/// cluster on is exactly the corresponding suffix.
pub proof fn lemma_chain_clusters_locate(
    disk: Seq<u8>,
    boot: BootSector,
    target: u16,
    cluster: u16,
    fuel: nat,
)
    requires
        boot.wf(),
        spec_rest_content(disk, boot, cluster, 0u16, fuel) is Ok,
        spec_chain_clusters(disk, boot, cluster, fuel).contains(target as int),
    ensures
        exists|i: int|
            {
                &&& 0 <= i < spec_chain_clusters(disk, boot, cluster, fuel).len()
                &&& spec_chain_clusters(disk, boot, cluster, fuel)[i] == target as int
                &&& i <= fuel
                &&& spec_rest_content(disk, boot, target, 0u16, (fuel - i) as nat) is Ok
                &&& spec_chain_clusters(disk, boot, target, (fuel - i) as nat)
                    == spec_chain_clusters(disk, boot, cluster, fuel).skip(i)
            },
    decreases fuel,
{
    let cc = spec_chain_clusters(disk, boot, cluster, fuel);
    if cluster == target {
        assert(cc.skip(0) =~= cc);
        assert({
            &&& 0 <= 0 < cc.len()
            &&& cc[0] == target as int
            &&& 0 <= fuel
            &&& spec_rest_content(disk, boot, target, 0u16, (fuel - 0) as nat) is Ok
            &&& spec_chain_clusters(disk, boot, target, (fuel - 0) as nat) == cc.skip(0)
        });
    } else {
        let next = spec_next_cluster(disk, boot, cluster as int);
        assert(spec_valid_cluster(cluster) && fuel > 0);
        assert(next < 0xFF8) by {
            if next >= 0xFF8 {
                assert(cc =~= seq![cluster as int]);
                assert(cc[0] == target as int);
            }
        }
        let inner = spec_chain_clusters(disk, boot, next, (fuel - 1) as nat);
        assert(cc == seq![cluster as int] + inner);
        assert(inner.contains(target as int)) by {
            let w = choose|w: int| 0 <= w < cc.len() && cc[w] == target as int;
            assert(cc[w] == target as int);
            assert(w >= 1);
            assert(inner[w - 1] == target as int);
        }
        lemma_chain_clusters_locate(disk, boot, target, next, (fuel - 1) as nat);
        let j = choose|j: int|
            {
                &&& 0 <= j < inner.len()
                &&& inner[j] == target as int
                &&& j <= fuel - 1
                &&& spec_rest_content(disk, boot, target, 0u16, (fuel - 1 - j) as nat) is Ok
                &&& spec_chain_clusters(disk, boot, target, (fuel - 1 - j) as nat) == inner.skip(j)
            };
        assert(cc[j + 1] == target as int);
        assert(cc.skip(j + 1) =~= inner.skip(j));
        assert({
            &&& 0 <= j + 1 < cc.len()
            &&& cc[j + 1] == target as int
            &&& j + 1 <= fuel
            &&& spec_rest_content(disk, boot, target, 0u16, (fuel - (j + 1)) as nat) is Ok
            &&& spec_chain_clusters(disk, boot, target, (fuel - (j + 1)) as nat) == cc.skip(j + 1)
        });
    }
}

/// A resolving chain never revisits a cluster: following the same link
/// twice would loop forever instead of reaching the end-of-chain sentinel.
pub proof fn lemma_chain_clusters_distinct(disk: Seq<u8>, boot: BootSector, cluster: u16, fuel: nat)
    requires
        boot.wf(),
        spec_rest_content(disk, boot, cluster, 0u16, fuel) is Ok,
    ensures
        spec_chain_clusters(disk, boot, cluster, fuel).no_duplicates(),
        forall|i: int|
            0 <= i < spec_chain_clusters(disk, boot, cluster, fuel).len() ==> 2
                <= #[trigger] spec_chain_clusters(disk, boot, cluster, fuel)[i] < 0xFF0,
    decreases fuel,
{
    let cc = spec_chain_clusters(disk, boot, cluster, fuel);
    if !spec_valid_cluster(cluster) {
    } else {
        let next = spec_next_cluster(disk, boot, cluster as int);
        if next >= 0xFF8 {
        } else {
            lemma_chain_clusters_distinct(disk, boot, next, (fuel - 1) as nat);
            let inner = spec_chain_clusters(disk, boot, next, (fuel - 1) as nat);
            assert(cc == seq![cluster as int] + inner);
            if inner.contains(cluster as int) {
                lemma_chain_clusters_locate(disk, boot, cluster, next, (fuel - 1) as nat);
                let j = choose|j: int|
                    {
                        &&& 0 <= j < inner.len()
                        &&& inner[j] == cluster as int
                        &&& j <= fuel - 1
                        &&& spec_rest_content(disk, boot, cluster, 0u16, (fuel - 1 - j) as nat) is Ok
                        &&& spec_chain_clusters(disk, boot, cluster, (fuel - 1 - j) as nat)
                            == inner.skip(j)
                    };
                lemma_chain_clusters_monotonic(disk, boot, cluster, (fuel - 1 - j) as nat, fuel);
                assert(cc == inner.skip(j));
                assert(cc.len() == 1 + inner.len());
                assert(inner.skip(j).len() == inner.len() - j);
                assert(false);
            }
            assert(forall|i: int| 0 <= i < inner.len() ==> cc[i + 1] == inner[i]);
            assert(cc.no_duplicates()) by {
                assert(forall|p: int, q: int|
                    0 <= p < q < cc.len() ==> cc[p] != cc[q]) by {
                    assert forall|p: int, q: int| 0 <= p < q < cc.len() implies cc[p] != cc[q] by {
                        if p == 0 {
                            assert(inner[q - 1] == cc[q]);
                            if cc[q] == cluster as int {
                                assert(inner.contains(cluster as int));
                            }
                        } else {
                            assert(cc[p] == inner[p - 1]);
                            assert(cc[q] == inner[q - 1]);
                        }
                    }
                }
            }
        }
    }
}

/// A resolving chain is no longer than the number of distinct data
/// clusters a FAT12 table can name.
pub proof fn lemma_chain_clusters_len(disk: Seq<u8>, boot: BootSector, cluster: u16, fuel: nat)
    requires
        boot.wf(),
        spec_rest_content(disk, boot, cluster, 0u16, fuel) is Ok,
    ensures
        spec_chain_clusters(disk, boot, cluster, fuel).len() <= 0xFEE,
{
    let cc = spec_chain_clusters(disk, boot, cluster, fuel);
    lemma_chain_clusters_distinct(disk, boot, cluster, fuel);
    cc.unique_seq_to_set();
    assert(cc.to_set().subset_of(vstd::set_lib::set_int_range(2, 0xFF0))) by {
        assert forall|x: int| cc.to_set().contains(x) implies vstd::set_lib::set_int_range(
            2,
            0xFF0,
        ).contains(x) by {
            let w = choose|w: int| 0 <= w < cc.len() && cc[w] == x;
            assert(2 <= cc[w] < 0xFF0);
        }
    }
    vstd::set_lib::lemma_int_range(2, 0xFF0);
    vstd::set_lib::lemma_len_subset(cc.to_set(), vstd::set_lib::set_int_range(2, 0xFF0));
}

/// The fuel a resolving chain actually needs is its own length: with that
/// much fuel it resolves to the same content.
pub proof fn lemma_rest_content_fuel_len(disk: Seq<u8>, boot: BootSector, cluster: u16, fuel: nat)
    requires
        boot.wf(),
        spec_rest_content(disk, boot, cluster, 0u16, fuel) is Ok,
    ensures
        spec_rest_content(
            disk,
            boot,
            cluster,
            0u16,
            spec_chain_clusters(disk, boot, cluster, fuel).len(),
        ) == spec_rest_content(disk, boot, cluster, 0u16, fuel),
    decreases fuel,
{
    let cc = spec_chain_clusters(disk, boot, cluster, fuel);
    if !spec_valid_cluster(cluster) {
    } else {
        let next = spec_next_cluster(disk, boot, cluster as int);
        if next >= 0xFF8 {
        } else {
            lemma_rest_content_fuel_len(disk, boot, next, (fuel - 1) as nat);
            let inner = spec_chain_clusters(disk, boot, next, (fuel - 1) as nat);
            assert(cc.len() == 1 + inner.len());
        }
    }
}

/// Any chain that resolves at some fuel resolves to the same content at the
/// standard fuel bound: a terminating chain is always short enough.
pub proof fn lemma_chain_fuel_normalize(disk: Seq<u8>, boot: BootSector, cluster: u16, fuel: nat)
    requires
        boot.wf(),
        spec_rest_content(disk, boot, cluster, 0u16, fuel) is Ok,
    ensures
        spec_rest_content(disk, boot, cluster, 0u16, spec_chain_fuel()) == spec_rest_content(
            disk,
            boot,
            cluster,
            0u16,
            fuel,
        ),
{
    let cc_len = spec_chain_clusters(disk, boot, cluster, fuel).len();
    lemma_chain_clusters_len(disk, boot, cluster, fuel);
    lemma_rest_content_fuel_len(disk, boot, cluster, fuel);
    lemma_rest_content_monotonic(disk, boot, cluster, 0u16, cc_len, spec_chain_fuel());
}


/// The converse of `lemma_read_step_rest`: whatever one successful read
/// call delivers and leaves behind determines the chain content of the
/// state it started from. A finished call's delivery is the whole remaining
/// content; an unfinished call's delivery prepends onto whatever content
/// the successor state resolves to.
pub proof fn lemma_read_step_back(
    disk: Seq<u8>,
    boot: BootSector,
    first: u16,
    cluster: u16,
    consumed: u16,
    cap: u16,
    f: nat,
)
    requires
        boot.wf(),
        cap >= 1,
        !spec_valid_cluster(cluster) || consumed < boot.spec_cluster_size(),
        spec_read_step(disk, boot, first, cluster, consumed, cap) is Ok,
    ensures
        ({
            let t = spec_read_step(disk, boot, first, cluster, consumed, cap)->Ok_0;
            &&& (t.3 ==> spec_rest_content(disk, boot, cluster, consumed, cap as nat) == Ok::<
                Seq<u8>,
                FsError,
            >(t.0))
            &&& (!t.3 ==> (spec_rest_content(disk, boot, t.1, t.2, f) matches Ok(r)
                ==> spec_rest_content(disk, boot, cluster, consumed, f + cap as nat) == Ok::<
                Seq<u8>,
                FsError,
            >(t.0 + r)))
        }),
    decreases cap,
{
    let csize = boot.spec_cluster_size();
    let t = spec_read_step(disk, boot, first, cluster, consumed, cap)->Ok_0;
    if !spec_valid_cluster(cluster) {
        assert(t.0 =~= Seq::<u8>::empty());
    } else {
        let off = boot.spec_cluster_offset(cluster as int);
        let count = if csize - consumed <= cap {
            csize - consumed
        } else {
            cap as int
        };
        let lba = off + consumed;
        assert((lba + count) * (SECTOR_SIZE as int) <= (off + csize) * (SECTOR_SIZE as int))
            by (nonlinear_arith)
            requires
                lba + count <= off + csize,
        ;
        assert((lba + count) * (SECTOR_SIZE as int) == lba * (SECTOR_SIZE as int) + count * (
        SECTOR_SIZE as int)) by (nonlinear_arith);
        assert((off + csize) * (SECTOR_SIZE as int) == lba * (SECTOR_SIZE as int) + (csize
            - consumed) * (SECTOR_SIZE as int)) by (nonlinear_arith)
            requires
                lba == off + consumed,
        ;
        let tail = disk.subrange(
            lba * (SECTOR_SIZE as int),
            (off + csize) * (SECTOR_SIZE as int),
        );
        let delivered = disk.subrange(
            lba * (SECTOR_SIZE as int),
            (lba + count) * (SECTOR_SIZE as int),
        );
        let next = spec_next_cluster(disk, boot, cluster as int);
        if consumed + count < csize {
            // the call stopped inside the current cluster with a full buffer
            assert(count == cap);
            assert(!t.3 && t.1 == cluster && t.2 == consumed + count);
            if spec_rest_content(disk, boot, t.1, t.2, f) is Ok {
                let r = spec_rest_content(disk, boot, t.1, t.2, f)->Ok_0;
                let lba2 = off + consumed + count;
                assert((lba2) * (SECTOR_SIZE as int) == lba * (SECTOR_SIZE as int) + count * (
                SECTOR_SIZE as int)) by (nonlinear_arith)
                    requires
                        lba2 == lba + count,
                ;
                let tail2 = disk.subrange(
                    lba2 * (SECTOR_SIZE as int),
                    (off + csize) * (SECTOR_SIZE as int),
                );
                if next >= 0xFF8 {
                    assert(r == tail2);
                    assert(delivered + r =~= tail);
                } else {
                    let inner_f = spec_rest_content(disk, boot, next, 0u16, (f - 1) as nat);
                    assert(inner_f is Ok);
                    lemma_rest_content_monotonic(
                        disk,
                        boot,
                        next,
                        0u16,
                        (f - 1) as nat,
                        (f + cap - 1) as nat,
                    );
                    assert(r == tail2 + inner_f->Ok_0);
                    assert(delivered + r =~= tail + inner_f->Ok_0);
                }
            }
        } else {
            // the current cluster is exhausted by this call
            assert(count == csize - consumed);
            assert(delivered =~= tail);
            if next >= 0xFF8 {
                assert(t.3 && t.0 == delivered);
                assert(spec_rest_content(disk, boot, cluster, consumed, cap as nat) == Ok::<
                    Seq<u8>,
                    FsError,
                >(tail));
            } else if cap == count {
                assert(!t.3 && t.1 == next && t.2 == 0);
                if spec_rest_content(disk, boot, next, 0u16, f) is Ok {
                    lemma_rest_content_monotonic(disk, boot, next, 0u16, f, (f + cap - 1) as nat);
                }
            } else {
                lemma_read_step_back(
                    disk,
                    boot,
                    first,
                    next,
                    0u16,
                    (cap - count) as u16,
                    f,
                );
                let t1 = spec_read_step(disk, boot, first, next, 0u16, (cap - count) as u16)->Ok_0;
                assert(t == (delivered + t1.0, t1.1, t1.2, t1.3));
                if t1.3 {
                    // the deeper call reached the end of the chain
                    assert(spec_rest_content(disk, boot, next, 0u16, (cap - count) as nat) == Ok::<
                        Seq<u8>,
                        FsError,
                    >(t1.0));
                    lemma_rest_content_monotonic(
                        disk,
                        boot,
                        next,
                        0u16,
                        (cap - count) as nat,
                        (cap - 1) as nat,
                    );
                    assert(spec_rest_content(disk, boot, cluster, consumed, cap as nat) == Ok::<
                        Seq<u8>,
                        FsError,
                    >(tail + t1.0));
                    assert(tail + t1.0 =~= t.0);
                } else {
                    if spec_rest_content(disk, boot, t.1, t.2, f) is Ok {
                        let r = spec_rest_content(disk, boot, t.1, t.2, f)->Ok_0;
                        assert(spec_rest_content(disk, boot, next, 0u16, (f + (cap - count)) as nat)
                            == Ok::<Seq<u8>, FsError>(t1.0 + r));
                        lemma_rest_content_monotonic(
                            disk,
                            boot,
                            next,
                            0u16,
                            (f + (cap - count)) as nat,
                            (f + cap - 1) as nat,
                        );
                        assert(spec_rest_content(disk, boot, cluster, consumed, (f + cap) as nat)
                            == Ok::<Seq<u8>, FsError>(tail + (t1.0 + r)));
                        assert(tail + (t1.0 + r) =~= t.0 + r);
                    }
                }
            }
        }
    }
}

} // verus!
