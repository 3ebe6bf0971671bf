//! Loading a scene from the bytes of a scene file: chunk decompression, then
//! scene decoding, with the general heap or with a bump allocator.

use vstd::prelude::*;
use crate::allocator::{SeqAllocator, reserve_all, lemma_reserve_all_append};
use crate::chunk::{
    unchunk, is_chunking, compresses_to, total_of, chunked_size, decompress,
    decompress_into, lemma_unchunk_total, lemma_chunking_total,
};
use crate::codec::{DecodeError, Serialize, Deserialize};
use crate::scene::Scene;

verus! {

/// Loads the scene that the file bytes `file` hold, with the general heap.
pub fn load_scene_from_file(file: &[u8]) -> (r: Result<Scene, DecodeError>)
    ensures
        r is Ok ==> unchunk(file@) == Some(r.unwrap().wire()),
        r is Err ==> match unchunk(file@) {
            Some(d) => d.len() > usize::MAX || forall|t: Scene| #[trigger] t.wire() != d,
            None => true,
        },
        forall|t: Scene|
            #![trigger t.wire()]
            is_chunking(t.wire(), file@) && t.wire().len() <= usize::MAX
                ==> r is Ok && r.unwrap()@ == t@,
{
    let buf = match decompress(file) {
        Ok(b) => b,
        Err(e) => return Err(e),
    };
    Scene::decode(buf.as_slice())
}

/// Loads the scene that the file bytes `file` hold, taking from `a` first
/// the scene buffer (one byte alignment) and then every sequence of the
/// scene; with a bump allocator the whole scene lives in its region.
pub fn load_scene_from_file_with_allocator<A: SeqAllocator>(file: &[u8], a: &mut A) -> (r: Result<
    Scene,
    DecodeError,
>)
    requires
        old(a).wf(),
    ensures
        final(a).wf(),
        match r {
            Ok(s) => {
                &&& unchunk(file@) == Some(s.wire())
                &&& reserve_all(*old(a), seq![(s.wire().len(), 1nat)] + s.requests()) == Some(
                    *final(a),
                )
            },
            Err(DecodeError::Format) => match unchunk(file@) {
                Some(d) => d.len() > usize::MAX || forall|t: Scene| #[trigger] t.wire() != d,
                None => true,
            },
            Err(DecodeError::Alloc(_)) => forall|t: Scene| #[trigger]
                unchunk(file@) == Some(t.wire()) ==> reserve_all(
                    *old(a),
                    seq![(t.wire().len(), 1nat)] + t.requests(),
                ) is None,
        },
        forall|t: Scene|
            #![trigger t.wire()]
            is_chunking(t.wire(), file@) && t.wire().len() <= usize::MAX
                && reserve_all(*old(a), seq![(t.wire().len(), 1nat)] + t.requests()) is Some ==> r is Ok
                && r.unwrap()@ == t@,
{
    let ghost a0 = *a;
    proof {
        lemma_unchunk_total(file@);
        assert forall|t: Scene|
            #![trigger t.wire()]
            is_chunking(t.wire(), file@) implies total_of(file@) == Some(
                t.wire().len(),
            ) by {
            lemma_chunking_total(t.wire(), file@);
        }
    }
    let total = match chunked_size(file) {
        Some(t) => t,
        None => return Err(DecodeError::Format),
    };
    let ghost head = seq![(total as nat, 1nat)];
    assert forall|t: Scene| #[trigger] t.wire().len() == total implies seq![(t.wire().len(), 1nat)] + t.requests()
        == head + t.requests() by {}
    match a.reserve(total as u64, 1, 1) {
        Ok(()) => {},
        Err(e) => {
            assert forall|t: Scene| #[trigger]
                unchunk(file@) == Some(t.wire()) implies reserve_all(
                a0,
                seq![(t.wire().len(), 1nat)] + t.requests(),
            ) is None by {
                reveal_with_fuel(reserve_all, 2);
                lemma_reserve_all_append(a0, head, t.requests());
            }
            return Err(DecodeError::Alloc(e));
        },
    }
    let ghost a1 = *a;
    proof {
        reveal_with_fuel(reserve_all, 2);
        assert(reserve_all(a0, head) == Some(a1));
        assert forall|t: Scene| #[trigger] t.wire().len() == total implies reserve_all(
            a0,
            head + t.requests(),
        ) == reserve_all(a1, t.requests()) by {
            lemma_reserve_all_append(a0, head, t.requests());
        }
    }
    let mut buf: Vec<u8> = vec![0u8; total];
    assert forall|t: Scene|
        #![trigger t.wire()]
        is_chunking(t.wire(), file@) && t.wire().len() <= usize::MAX
            implies compresses_to(t.wire(), file@, buf@.len()) by {}
    match decompress_into(file, &mut buf) {
        Ok(()) => {},
        Err(e) => return Err(e),
    }
    Scene::decode_in(buf.as_slice(), a)
}

} // verus!
