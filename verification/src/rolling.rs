use vstd::prelude::*;

verus! {

#[verifier::external_type_specification]
#[verifier::external_body]
pub struct ExBup(rollsum::Bup);

/// Whether the bup cut rule fires exactly at the end of `fed`: a fresh
/// engine that has consumed precisely `fed` since its last reset declares a
/// chunk edge there.  This is a pure function of the bytes: the engine is
/// deterministic, with fixed parameters.
pub uninterp spec fn bup_cut(fed: Seq<u8>) -> bool;

/// The rolling-hash engine together with the bytes it has consumed since its
/// last reset.  The history is ghost; the engine itself stays opaque.
pub struct RollSum {
    engine: rollsum::Bup,
    fed: Ghost<Seq<u8>>,
}

impl RollSum {
    /// The bytes consumed since the last reset.
    pub closed spec fn fed(&self) -> Seq<u8> {
        self.fed@
    }
}

/// Relies on rollsum's `Bup::new`: a fresh engine with the standard bup
/// cut-point parameters.
#[verifier::external_body]
fn bup_engine_new() -> rollsum::Bup {
    rollsum::Bup::new()
}

/// A fresh engine with an empty consumed history.
pub(crate) fn bup_new() -> (r: RollSum)
    ensures
        r.fed() == Seq::<u8>::empty(),
{
    RollSum { engine: bup_engine_new(), fed: Ghost(Seq::empty()) }
}

/// Relies on rollsum's `Bup::find_chunk_edge`: scanning `buf` byte by byte
/// from the engine's state, it stops at the first content-defined cut.
/// `Some((c, _))` declares the cut right after `c` consumed bytes,
/// `1 <= c <= buf.len()`, and resets the engine; `None` consumes all of
/// `buf` without a cut.  The cut positions are exactly where the named
/// `bup_cut` rule fires on the bytes consumed since the engine's last reset.
#[verifier::external_body]
pub(crate) fn bup_find_chunk_edge(roll: &mut RollSum, buf: &[u8]) -> (r: Option<(
    usize,
    u32,
)>)
    ensures
        r matches Some(p) ==> 1 <= p.0 <= buf@.len() && final(roll).fed() == Seq::<u8>::empty()
            && bup_cut(old(roll).fed() + buf@.take(p.0 as int)) && (forall|k: int|
            0 < k < p.0 ==> !(#[trigger] bup_cut(old(roll).fed() + buf@.take(k)))),
        r is None ==> final(roll).fed() == old(roll).fed() + buf@ && (forall|k: int|
            0 < k <= buf@.len() ==> !(#[trigger] bup_cut(old(roll).fed() + buf@.take(k)))),
{
    roll.engine.find_chunk_edge(buf)
}

} // verus!
