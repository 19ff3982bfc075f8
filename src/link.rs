use vstd::prelude::*;
use crate::record::IdxRecord;

verus! {

/// Run options.
pub struct Args {
    /// Make no filesystem changes.
    pub dryrun: bool,
    /// Make hard links instead of reflinks.
    pub hardlinks: bool,
    /// Where the hash cache is kept, if anywhere.
    pub indexfile: Option<String>,
    /// Compute a second digest and trust no cached digest.
    pub paranoid: bool,
    /// Print no progress and no links.
    pub quiet: bool,
    /// The trees to deduplicate.
    pub directories: Vec<String>,
}

/// What the filesystem says of one file: its device, its inode and the
/// physical offset of its first extent (`None` where that query failed).
#[derive(Debug, Clone, Copy, PartialEq, Eq, Structural)]
pub struct LinkProbe {
    pub dev: u64,
    pub ino: u64,
    pub first_extent: Option<u64>,
}

/// Two files already share their storage: same device and same inode, or
/// same first physical extent; a failed extent query counts as shared.
pub open spec fn shares_storage(a: LinkProbe, b: LinkProbe) -> bool {
    a.dev == b.dev && (a.ino == b.ino || match (a.first_extent, b.first_extent) {
        (Some(x), Some(y)) => x == y,
        _ => true,
    })
}

/// Whether `dest` already shares its storage with `src`, so that no link
/// is to be made between them.
pub fn already_linked(src: &LinkProbe, dest: &LinkProbe) -> (r: bool)
    ensures
        r == shares_storage(*src, *dest),
{
    if src.dev != dest.dev {
        return false;
    }
    if src.ino == dest.ino {
        return true;
    }
    match (src.first_extent, dest.first_extent) {
        (Some(x), Some(y)) => x == y,
        _ => true,
    }
}

/// The members of a class, by position, that are to be linked to its
/// first member: every later one that does not already share storage
/// with it, in order.
pub open spec fn link_targets(p: Seq<LinkProbe>, n: int) -> Seq<usize>
    decreases n,
{
    if n <= 1 {
        seq![]
    } else if shares_storage(p[0], p[n - 1]) {
        link_targets(p, n - 1)
    } else {
        link_targets(p, n - 1).push((n - 1) as usize)
    }
}

/// `x`, or the largest `u64` where `x` is larger.
pub open spec fn saturate(x: int) -> u64 {
    if x > u64::MAX {
        u64::MAX
    } else {
        x as u64
    }
}

/// The bytes saved by `links` links of files of `size` bytes.
pub fn saved_bytes(size: u64, links: usize) -> (r: u64)
    ensures
        r == saturate(size * links),
{
    match size.checked_mul(links as u64) {
        Some(x) => x,
        None => u64::MAX,
    }
}

/// The links to make within one class.
pub struct LinkPlan {
    /// Positions of the members to replace by a link to the first member.
    pub dests: Vec<usize>,
    /// Bytes saved: the class's file size once per link.
    pub saved: u64,
}

/// Plans the links of one class: `probes[i]` describes `linkindex[i]`.
/// Each member that does not already share storage with the first member
/// is to be linked to it, and adds the file size to the bytes saved.
pub fn make_links(linkindex: &Vec<IdxRecord>, probes: &Vec<LinkProbe>) -> (r: LinkPlan)
    requires
        linkindex@.len() >= 1,
        probes@.len() == linkindex@.len(),
    ensures
        r.dests@ == link_targets(probes@, probes@.len() as int),
        r.saved == saturate(linkindex@[0].size * r.dests@.len()),
{
    let size = linkindex[0].size;
    let mut dests: Vec<usize> = Vec::new();
    let mut saved: u64 = 0;
    let mut i: usize = 1;
    while i < probes.len()
        invariant
            1 <= i <= probes@.len(),
            size == linkindex@[0].size,
            dests@ == link_targets(probes@, i as int),
            saved == saturate(size * dests@.len()),
        decreases probes@.len() - i,
    {
        if !already_linked(&probes[0], &probes[i]) {
            dests.push(i);
            if saved <= u64::MAX - size {
                saved = saved + size;
            } else {
                saved = u64::MAX;
            }
            assert(size * dests@.len() == size * (dests@.len() - 1) + size) by (nonlinear_arith);
        }
        i += 1;
    }
    LinkPlan { dests, saved }
}

/// A pair whose storage is already shared is never among the planned links.
pub proof fn lemma_shared_pair_not_linked(p: Seq<LinkProbe>, i: int)
    requires
        1 <= i < p.len() <= usize::MAX,
        shares_storage(p[0], p[i]),
    ensures
        !link_targets(p, p.len() as int).contains(i as usize),
{
    lemma_targets_below(p, p.len() as int, i);
}

proof fn lemma_targets_below(p: Seq<LinkProbe>, n: int, i: int)
    requires
        1 <= i < p.len() <= usize::MAX,
        n <= p.len(),
        shares_storage(p[0], p[i]),
    ensures
        !link_targets(p, n).contains(i as usize),
    decreases n,
{
    if n > 1 {
        lemma_targets_below(p, n - 1, i);
        if !shares_storage(p[0], p[n - 1]) {
            assert(link_targets(p, n) == link_targets(p, n - 1).push((n - 1) as usize));
            if link_targets(p, n).contains(i as usize) {
                let k = choose|k: int|
                    0 <= k < link_targets(p, n).len() && link_targets(p, n)[k] == i as usize;
                if k < link_targets(p, n - 1).len() {
                    assert(link_targets(p, n - 1)[k] == i as usize);
                }
            }
        }
    }
}

/// The filesystem operation that one planned link comes to.
#[derive(Debug, Clone, Copy, PartialEq, Eq, Structural)]
pub enum LinkKind {
    /// Dry run: nothing is written.
    Skip,
    /// A copy-on-write clone.
    Reflink,
    /// A hard link.
    Hardlink,
}

/// Chooses how a planned link is made under the run options.
pub fn make_link(args: &Args) -> (r: LinkKind)
    ensures
        r == (if args.dryrun {
            LinkKind::Skip
        } else if args.hardlinks {
            LinkKind::Hardlink
        } else {
            LinkKind::Reflink
        }),
{
    if args.dryrun {
        LinkKind::Skip
    } else if args.hardlinks {
        LinkKind::Hardlink
    } else {
        LinkKind::Reflink
    }
}

/// Where every member of a class already shares storage with the first,
/// nothing is linked and no byte is counted as saved: a tree that a run
/// has fully linked gives no further savings.
pub proof fn lemma_all_shared_saves_nothing(p: Seq<LinkProbe>, size: u64)
    requires
        forall|i: int| 1 <= i < p.len() ==> shares_storage(p[0], #[trigger] p[i]),
    ensures
        link_targets(p, p.len() as int).len() == 0,
        saturate(size * link_targets(p, p.len() as int).len()) == 0,
{
    lemma_no_targets(p, p.len() as int);
}

proof fn lemma_no_targets(p: Seq<LinkProbe>, n: int)
    requires
        n <= p.len(),
        forall|i: int| 1 <= i < p.len() ==> shares_storage(p[0], #[trigger] p[i]),
    ensures
        link_targets(p, n).len() == 0,
    decreases n,
{
    if n > 1 {
        lemma_no_targets(p, n - 1);
        assert(shares_storage(p[0], p[n - 1]));
    }
}

} // verus!
