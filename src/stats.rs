//! How the material channels of a scene's meshes are filled.

use vstd::prelude::*;
use crate::scene::{Mesh, MaterialParameter, Scene};

verus! {

/// How many meshes leave a channel absent, point it at a texture, or give
/// it a constant vector.
#[derive(Clone, Copy, Debug, PartialEq, Eq, Structural)]
pub struct ChannelStats {
    pub absent: u64,
    pub texture: u64,
    pub constant: u64,
}

#[derive(Clone, Copy, Debug, PartialEq, Eq, Structural)]
pub struct MaterialStats {
    pub base_color: ChannelStats,
    pub normal: ChannelStats,
    pub specular: ChannelStats,
    pub emissive: ChannelStats,
}

/// The tally of the parameters of `ps`, as (absent, texture, constant).
pub open spec fn tally(ps: Seq<MaterialParameter>) -> (nat, nat, nat)
    decreases ps.len(),
{
    if ps.len() == 0 {
        (0, 0, 0)
    } else {
        let (a, t, c) = tally(ps.drop_last());
        match ps.last() {
            MaterialParameter::Absent => (a + 1, t, c),
            MaterialParameter::Texture(_) => (a, t + 1, c),
            _ => (a, t, c + 1),
        }
    }
}

pub open spec fn channel_matches(s: ChannelStats, ps: Seq<MaterialParameter>) -> bool {
    tally(ps) == (s.absent as nat, s.texture as nat, s.constant as nat)
}

proof fn lemma_tally_bound(ps: Seq<MaterialParameter>)
    ensures
        tally(ps).0 + tally(ps).1 + tally(ps).2 == ps.len(),
    decreases ps.len(),
{
    if ps.len() > 0 {
        lemma_tally_bound(ps.drop_last());
    }
}

fn count_parameter(s: &mut ChannelStats, p: MaterialParameter, Ghost(ps): Ghost<Seq<MaterialParameter>>)
    requires
        channel_matches(*old(s), ps),
        ps.len() < u64::MAX,
    ensures
        channel_matches(*final(s), ps.push(p)),
{
    proof {
        lemma_tally_bound(ps);
        assert(ps.push(p).drop_last() =~= ps);
    }
    match p {
        MaterialParameter::Absent => s.absent = s.absent + 1,
        MaterialParameter::Texture(_) => s.texture = s.texture + 1,
        _ => s.constant = s.constant + 1,
    }
}

pub open spec fn base_colors(ms: Seq<Mesh>) -> Seq<MaterialParameter> {
    ms.map_values(|m: Mesh| m.material.base_color)
}

pub open spec fn normals(ms: Seq<Mesh>) -> Seq<MaterialParameter> {
    ms.map_values(|m: Mesh| m.material.normal)
}

pub open spec fn speculars(ms: Seq<Mesh>) -> Seq<MaterialParameter> {
    ms.map_values(|m: Mesh| m.material.specular)
}

pub open spec fn emissives(ms: Seq<Mesh>) -> Seq<MaterialParameter> {
    ms.map_values(|m: Mesh| m.material.emissive)
}

/// Counts, for each channel, how the meshes of `scene` fill it.
pub fn material_stats(scene: &Scene) -> (r: MaterialStats)
    ensures
        channel_matches(r.base_color, base_colors(scene.meshes@)),
        channel_matches(r.normal, normals(scene.meshes@)),
        channel_matches(r.specular, speculars(scene.meshes@)),
        channel_matches(r.emissive, emissives(scene.meshes@)),
{
    let zero = ChannelStats { absent: 0, texture: 0, constant: 0 };
    let mut r = MaterialStats { base_color: zero, normal: zero, specular: zero, emissive: zero };
    let ms = &scene.meshes;
    let mut i: usize = 0;
    while i < ms.len()
        invariant
            i <= ms@.len(),
            channel_matches(r.base_color, base_colors(ms@.take(i as int))),
            channel_matches(r.normal, normals(ms@.take(i as int))),
            channel_matches(r.specular, speculars(ms@.take(i as int))),
            channel_matches(r.emissive, emissives(ms@.take(i as int))),
        decreases ms@.len() - i,
    {
        let m = &ms[i];
        let ghost pre = ms@.take(i as int);
        let ghost post = ms@.take(i + 1);
        assert(base_colors(post) =~= base_colors(pre).push(m.material.base_color));
        assert(normals(post) =~= normals(pre).push(m.material.normal));
        assert(speculars(post) =~= speculars(pre).push(m.material.specular));
        assert(emissives(post) =~= emissives(pre).push(m.material.emissive));
        count_parameter(&mut r.base_color, m.material.base_color, Ghost(base_colors(pre)));
        count_parameter(&mut r.normal, m.material.normal, Ghost(normals(pre)));
        count_parameter(&mut r.specular, m.material.specular, Ghost(speculars(pre)));
        count_parameter(&mut r.emissive, m.material.emissive, Ghost(emissives(pre)));
        i = i + 1;
    }
    assert(ms@.take(i as int) =~= ms@);
    r
}

} // verus!
