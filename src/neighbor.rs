//! Neighbor records: spatial-index hits tagged with node keys and periodic
//! images, and the distance-gated exclusion of the host node.
use crate::error::NeighborError;
use crate::images::{has_opposite, opposite, Image};
use crate::registry::{keys_of, Registry};
use vstd::prelude::*;

verus! {

/// One neighbor found by a query. The distance is carried as the spatial
/// index reported it.
#[derive(Clone, Copy, Debug)]
pub struct Neighbor<D> {
    /// The key of the node found.
    pub node: usize,
    /// Its distance to the query point.
    pub distance: D,
    /// In periodic mode, the translation that moves the node onto the copy
    /// that was found; `None` in aperiodic mode.
    pub image: Option<Image>,
}

/// A hit `(position, distance)` of the spatial index as a neighbor record.
pub open spec fn tag<D>(keys: Seq<usize>, hit: (usize, D), image: Option<Image>) -> Neighbor<D> {
    Neighbor { node: keys[hit.0 as int], distance: hit.1, image }
}

/// Every hit as a neighbor record, in order.
pub open spec fn tagged<D>(keys: Seq<usize>, hits: Seq<(usize, D)>, image: Option<Image>) -> Seq<
    Neighbor<D>,
> {
    hits.map_values(|h: (usize, D)| tag(keys, h, image))
}

/// Every hit names a position below `n`.
pub open spec fn hits_within<D>(n: nat, hits: Seq<(usize, D)>) -> bool {
    forall|i: int| 0 <= i < hits.len() ==> (#[trigger] hits[i]).0 < n
}

/// Every group's hits name positions below `n`.
pub open spec fn groups_within<D>(n: nat, groups: Seq<(Image, Vec<(usize, D)>)>) -> bool {
    forall|i: int| 0 <= i < groups.len() ==> hits_within(n, (#[trigger] groups[i]).1@)
}

/// The records of the first `n` groups, one sequence per group: a hit of
/// the query mirrored by translation `t` is the node's copy under `-t`.
pub open spec fn mirrored_groups<D>(keys: Seq<usize>, groups: Seq<(Image, Vec<(usize, D)>)>, n: nat) -> Seq<
    Seq<Neighbor<D>>,
> {
    Seq::new(n, |i: int| tagged(keys, groups[i].1@, Some(opposite(groups[i].0))))
}

/// The records of all groups, concatenated in order.
pub open spec fn mirrored<D>(keys: Seq<usize>, groups: Seq<(Image, Vec<(usize, D)>)>) -> Seq<
    Neighbor<D>,
> {
    mirrored_groups(keys, groups, groups.len()).flatten()
}

/// Each record of `found` paired with its coincidence flag.
pub open spec fn flagged<D>(found: Seq<Neighbor<D>>, coincident: Seq<bool>) -> Seq<(Neighbor<D>, bool)> {
    Seq::new(found.len(), |i: int| (found[i], coincident[i]))
}

/// Whether the host gate lets a flagged record through: it stops exactly
/// the records of `host` that lie at the query point itself.
pub open spec fn passes_gate<D>(host: usize) -> spec_fn((Neighbor<D>, bool)) -> bool {
    |x: (Neighbor<D>, bool)| !(x.0.node == host && x.1)
}

/// The flagged records that pass the host gate, in order.
pub open spec fn gate_kept<D>(found: Seq<Neighbor<D>>, host: usize, coincident: Seq<bool>) -> Seq<
    (Neighbor<D>, bool),
> {
    flagged(found, coincident).filter(passes_gate(host))
}

/// The records of `found` that pass the host gate, in order.
pub open spec fn without_host<D>(found: Seq<Neighbor<D>>, host: usize, coincident: Seq<bool>) -> Seq<
    Neighbor<D>,
> {
    gate_kept(found, host, coincident).map_values(|x: (Neighbor<D>, bool)| x.0)
}

/// The host gate removes exactly the records of the host that lie at the
/// query point: every record kept is not such a copy, and every record that
/// is not such a copy is kept, among them the host's copies through other
/// periodic images.
pub proof fn lemma_host_gate<D>(found: Seq<Neighbor<D>>, host: usize, coincident: Seq<bool>)
    requires
        found.len() == coincident.len(),
    ensures
        forall|j: int|
            0 <= j < gate_kept(found, host, coincident).len() ==> !((#[trigger] gate_kept(
                found,
                host,
                coincident,
            )[j]).0.node == host && gate_kept(found, host, coincident)[j].1),
        forall|i: int|
            0 <= i < found.len() && !(found[i].node == host && coincident[i]) ==> gate_kept(
                found,
                host,
                coincident,
            ).contains((#[trigger] found[i], coincident[i])),
        without_host(found, host, coincident).len() == gate_kept(found, host, coincident).len(),
        forall|j: int|
            0 <= j < gate_kept(found, host, coincident).len() ==> without_host(
                found,
                host,
                coincident,
            )[j] == (#[trigger] gate_kept(found, host, coincident)[j]).0,
{
    let fl = flagged(found, coincident);
    let pred = passes_gate::<D>(host);
    assert forall|j: int| 0 <= j < fl.filter(pred).len() implies pred(
        #[trigger] fl.filter(pred)[j],
    ) by {
        fl.lemma_filter_pred(pred, j);
    }
    assert forall|i: int|
        0 <= i < found.len() && !(found[i].node == host && coincident[i]) implies fl.filter(
        pred,
    ).contains((#[trigger] found[i], coincident[i])) by {
        assert(fl[i] == (found[i], coincident[i]));
        fl.lemma_filter_contains(pred, i);
    }
}

impl<P> Registry<P> {
    /// Tags each hit `(position, distance)` with the key at its position and
    /// with `image`. Fails when a position lies past the registry.
    pub fn tag_hits<D: Copy>(&self, hits: &Vec<(usize, D)>, image: Option<Image>) -> (r: Result<
        Vec<Neighbor<D>>,
        NeighborError,
    >)
        requires
            self.wf(),
        ensures
            hits_within(self@.len(), hits@) ==> (r matches Ok(v) && v@ == tagged(
                keys_of(self@),
                hits@,
                image,
            )),
            !hits_within(self@.len(), hits@) ==> r == Err::<Vec<Neighbor<D>>, NeighborError>(
                NeighborError::IndexOutOfRange,
            ),
    {
        let mut v: Vec<Neighbor<D>> = Vec::new();
        let mut i: usize = 0;
        while i < hits.len()
            invariant
                self.wf(),
                i <= hits.len(),
                hits_within(self@.len(), hits@.take(i as int)),
                v@ == tagged(keys_of(self@), hits@.take(i as int), image),
            decreases hits.len() - i,
        {
            let (pos, distance) = hits[i];
            match self.key_at(pos) {
                Ok(node) => {
                    v.push(Neighbor { node, distance, image });
                    proof {
                        assert(hits@.take(i + 1) =~= hits@.take(i as int).push(hits@[i as int]));
                        assert(v@ =~= tagged(keys_of(self@), hits@.take(i + 1), image));
                    }
                },
                Err(e) => {
                    assert(!hits_within(self@.len(), hits@)) by {
                        assert(hits@[i as int].0 >= self@.len());
                    }
                    return Err(e);
                },
            }
            i = i + 1;
        }
        assert(hits@.take(i as int) =~= hits@);
        Ok(v)
    }

    /// Aperiodic search results: each hit of the spatial index, queried at
    /// the point itself, tagged with its node key and no image.
    pub fn aperiodic_neighbors<D: Copy>(&self, hits: &Vec<(usize, D)>) -> (r: Result<
        Vec<Neighbor<D>>,
        NeighborError,
    >)
        requires
            self.wf(),
        ensures
            hits_within(self@.len(), hits@) ==> (r matches Ok(v) && v@ == tagged(
                keys_of(self@),
                hits@,
                None,
            )),
            !hits_within(self@.len(), hits@) ==> r == Err::<Vec<Neighbor<D>>, NeighborError>(
                NeighborError::IndexOutOfRange,
            ),
    {
        self.tag_hits(hits, None)
    }

    /// Periodic search results: `groups` holds, for each translation `t` of
    /// the query point, the hits of the spatial index at the translated
    /// point. Each hit becomes a record with image `-t`, group after group,
    /// with no deduplication: a node appears once per copy found.
    pub fn periodic_neighbors<D: Copy>(&self, groups: &Vec<(Image, Vec<(usize, D)>)>) -> (r: Result<
        Vec<Neighbor<D>>,
        NeighborError,
    >)
        requires
            self.wf(),
            forall|i: int| 0 <= i < groups.len() ==> has_opposite(#[trigger] groups@[i].0),
        ensures
            groups_within(self@.len(), groups@) ==> (r matches Ok(v) && v@ == mirrored(
                keys_of(self@),
                groups@,
            )),
            !groups_within(self@.len(), groups@) ==> r == Err::<Vec<Neighbor<D>>, NeighborError>(
                NeighborError::IndexOutOfRange,
            ),
    {
        let ghost keys = keys_of(self@);
        let mut v: Vec<Neighbor<D>> = Vec::new();
        let mut i: usize = 0;
        assert(v@ =~= mirrored_groups(keys, groups@, 0).flatten());
        while i < groups.len()
            invariant
                self.wf(),
                keys == keys_of(self@),
                i <= groups.len(),
                forall|j: int| 0 <= j < groups.len() ==> has_opposite(#[trigger] groups@[j].0),
                forall|j: int| 0 <= j < i ==> hits_within(self@.len(), (#[trigger] groups@[j]).1@),
                v@ == mirrored_groups(keys, groups@, i as nat).flatten(),
            decreases groups.len() - i,
        {
            let image = groups[i].0.opposite();
            let tagged_group = self.tag_hits(&groups[i].1, Some(image));
            match tagged_group {
                Ok(mut w) => {
                    proof {
                        let gs = mirrored_groups(keys, groups@, i as nat);
                        assert(mirrored_groups(keys, groups@, (i + 1) as nat) =~= gs.push(w@));
                        gs.lemma_flatten_push(w@);
                    }
                    v.append(&mut w);
                },
                Err(e) => {
                    assert(!groups_within(self@.len(), groups@)) by {
                        assert(!hits_within(self@.len(), groups@[i as int].1@));
                    }
                    return Err(e);
                },
            }
            i = i + 1;
        }
        Ok(v)
    }
}

/// Drops from `found` the records of node `host` that lie at the query point
/// itself, as `coincident` flags them position by position (a distance
/// below the exclusion threshold). Records of `host` through other periodic
/// images are kept.
pub fn exclude_host<D: Copy>(found: &Vec<Neighbor<D>>, host: usize, coincident: &Vec<bool>) -> (r:
    Vec<Neighbor<D>>)
    requires
        found.len() == coincident.len(),
    ensures
        r@ == without_host(found@, host, coincident@),
{
    let mut r: Vec<Neighbor<D>> = Vec::new();
    let mut i: usize = 0;
    while i < found.len()
        invariant
            i <= found.len(),
            found.len() == coincident.len(),
            r@ == without_host(found@.take(i as int), host, coincident@.take(i as int)),
        decreases found.len() - i,
    {
        let n = found[i];
        let ghost before = flagged(found@.take(i as int), coincident@.take(i as int));
        let ghost after = flagged(found@.take(i + 1), coincident@.take(i + 1));
        proof {
            assert(after.drop_last() =~= before);
            assert(after.last() == (n, coincident@[i as int]));
            reveal(Seq::filter);
        }
        if !(n.node == host && coincident[i]) {
            r.push(n);
            proof {
                assert(after.filter(passes_gate(host)) == before.filter(passes_gate(host)).push(
                    (n, coincident@[i as int]),
                ));
                assert(r@ =~= without_host(found@.take(i + 1), host, coincident@.take(i + 1)));
            }
        } else {
            assert(after.filter(passes_gate(host)) == before.filter(passes_gate(host)));
        }
        i = i + 1;
    }
    assert(found@.take(i as int) =~= found@);
    assert(coincident@.take(i as int) =~= coincident@);
    r
}

} // verus!
