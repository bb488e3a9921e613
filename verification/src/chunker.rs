use crate::rolling::{bup_cut, bup_find_chunk_edge, bup_new, RollSum};
use crate::sha::{quick_sha256, sha256_of};
use vstd::prelude::*;

verus! {

/// An edge: the offset just past a chunk's last byte, relative to the buffer
/// that closed it, and the SHA-256 of the chunk's plaintext.
pub type Edge = (usize, Vec<u8>);

/// The plaintext of the chunk closed by edge `i`: the first edge closes the
/// previously open bytes plus the buffer up to its offset; every later edge
/// closes the buffer between the previous offset and its own.
pub open spec fn edge_chunk(prev: Seq<u8>, buf: Seq<u8>, edges: Seq<Edge>, i: int) -> Seq<u8>
    recommends
        0 <= i < edges.len(),
{
    if i == 0 {
        prev + buf.take(edges[0].0 as int)
    } else {
        buf.subrange(edges[i - 1].0 as int, edges[i].0 as int)
    }
}

/// Offsets lie in the buffer and never step backwards.
pub open spec fn edges_sorted(buf: Seq<u8>, edges: Seq<Edge>) -> bool {
    &&& forall|i: int| 0 <= i < edges.len() ==> (#[trigger] edges[i]).0 <= buf.len()
    &&& forall|i: int, j: int|
        0 <= i < j < edges.len() ==> (#[trigger] edges[i]).0 <= (#[trigger] edges[j]).0
}

/// Every edge carries the 32-byte SHA-256 of the chunk it closes.
pub open spec fn edges_hashed(prev: Seq<u8>, buf: Seq<u8>, edges: Seq<Edge>) -> bool {
    forall|i: int|
        0 <= i < edges.len() ==> (#[trigger] edges[i]).1@ == sha256_of(
            edge_chunk(prev, buf, edges, i),
        ) && edges[i].1@.len() == 32
}

/// The bytes left open after a buffer's edges: past the last offset, or the
/// whole carry plus the buffer when no edge was found.
pub open spec fn open_after(prev: Seq<u8>, buf: Seq<u8>, edges: Seq<Edge>) -> Seq<u8> {
    if edges.len() == 0 {
        prev + buf
    } else {
        buf.skip(edges.last().0 as int)
    }
}

/// The prefix of chunk `i`'s scan at buffer position `j`: the bytes the
/// rolling engine has consumed since its last reset when it stands at `j`.
pub open spec fn scan_prefix(prev: Seq<u8>, buf: Seq<u8>, edges: Seq<Edge>, i: int, j: int) -> Seq<
    u8,
> {
    if i == 0 {
        prev + buf.take(j)
    } else {
        buf.subrange(edges[i - 1].0 as int, j)
    }
}

/// The edges sit exactly on the content-defined cuts: the cut rule fires at
/// each chunk's end, and nowhere strictly inside a chunk's span of `buf`.
pub open spec fn edges_cut_exact(prev: Seq<u8>, buf: Seq<u8>, edges: Seq<Edge>) -> bool {
    &&& forall|i: int| 0 <= i < edges.len() ==> bup_cut(#[trigger] edge_chunk(prev, buf, edges, i))
    &&& forall|i: int, j: int|
        0 <= i < edges.len() && (if i == 0 {
            0
        } else {
            edges[i - 1].0 as int
        }) < j < edges[i].0 ==> !bup_cut(#[trigger] scan_prefix(prev, buf, edges, i, j))
}

/// No cut fires anywhere in the bytes the buffer leaves open.
pub open spec fn open_cut_free(prev: Seq<u8>, buf: Seq<u8>, edges: Seq<Edge>) -> bool {
    if edges.len() == 0 {
        forall|j: int| 0 < j <= buf.len() ==> !(#[trigger] bup_cut(prev + buf.take(j)))
    } else {
        forall|j: int|
            edges.last().0 < j <= buf.len() ==> !(#[trigger] bup_cut(
                buf.subrange(edges.last().0 as int, j),
            ))
    }
}

/// Law (determinism of the cut): the first content-defined cut of a scan is
/// a function of the bytes alone.  Two scans over the same carried-over
/// bytes and buffer therefore cut at the same position, which is what makes
/// chunk boundaries, digests and deduplication reproducible across writes.
pub proof fn lemma_first_cut_unique(prev: Seq<u8>, buf: Seq<u8>, c1: int, c2: int)
    requires
        0 < c1 <= buf.len(),
        0 < c2 <= buf.len(),
        bup_cut(prev + buf.take(c1)),
        forall|k: int| 0 < k < c1 ==> !(#[trigger] bup_cut(prev + buf.take(k))),
        bup_cut(prev + buf.take(c2)),
        forall|k: int| 0 < k < c2 ==> !(#[trigger] bup_cut(prev + buf.take(k))),
    ensures
        c1 == c2,
{
    if c1 < c2 {
        assert(!bup_cut(prev + buf.take(c1)));
    }
    if c2 < c1 {
        assert(!bup_cut(prev + buf.take(c2)));
    }
}

/// Content-defined chunking engine: scans input through a rolling hash, and
/// at each content-defined cut point emits an edge carrying the SHA-256 of
/// the chunk just closed.  Bytes after the last cut stay open until the next
/// input or `finish`.
pub struct Chunker {
    roll: RollSum,
    open_bytes: Vec<u8>,
    bytes_total: usize,
    edges: Vec<Edge>,
}

impl Chunker {
    /// The plaintext of the currently open chunk.
    pub closed spec fn open_chunk(&self) -> Seq<u8> {
        self.open_bytes@
    }

    /// Edges found but not yet handed out.
    pub closed spec fn pending(&self) -> Seq<Edge> {
        self.edges@
    }

    /// How many bytes were consumed in total.
    pub closed spec fn total(&self) -> int {
        self.bytes_total as int
    }

    /// The rolling engine's consumed-since-reset history is exactly the open
    /// chunk: both reset together at every edge.
    pub closed spec fn wf(&self) -> bool {
        self.roll.fed() == self.open_bytes@
    }

    pub fn new() -> (r: Chunker)
        ensures
            r.wf(),
            r.open_chunk() == Seq::<u8>::empty(),
            r.pending().len() == 0,
            r.total() == 0,
    {
        Chunker { roll: bup_new(), open_bytes: Vec::new(), bytes_total: 0, edges: Vec::new() }
    }

    /// Close the open chunk: hash it, record the edge at `input_ofs`, and
    /// reset the rolling and hash state.
    pub fn edge_found(&mut self, input_ofs: usize)
        ensures
            final(self).wf(),
            final(self).pending().len() == old(self).pending().len() + 1,
            final(self).pending().take(old(self).pending().len() as int) == old(self).pending(),
            final(self).pending().last().0 == input_ofs,
            final(self).pending().last().1@ == sha256_of(old(self).open_chunk()),
            final(self).pending().last().1@.len() == 32,
            final(self).open_chunk() == Seq::<u8>::empty(),
            final(self).total() == old(self).total(),
    {
        let digest = quick_sha256(self.open_bytes.as_slice());
        self.edges.push((input_ofs, digest));
        self.open_bytes = Vec::new();
        self.roll = bup_new();
        proof {
            assert(self.edges@.take(old(self).edges@.len() as int) =~= old(self).edges@);
        }
    }

    /// Feed a buffer.  Returns the edges found in it, in order: their offsets
    /// are relative to `buf`, each edge's digest is the SHA-256 of the chunk
    /// it closes, and the bytes past the last edge stay open.
    #[verifier::rlimit(100)]
    pub fn input(&mut self, buf: &[u8]) -> (edges: Vec<Edge>)
        requires
            old(self).wf(),
            old(self).pending().len() == 0,
            old(self).total() + buf@.len() <= usize::MAX,
        ensures
            final(self).wf(),
            final(self).pending().len() == 0,
            final(self).total() == old(self).total() + buf@.len(),
            edges_cut_exact(old(self).open_chunk(), buf@, edges@),
            open_cut_free(old(self).open_chunk(), buf@, edges@),
            edges_sorted(buf@, edges@),
            forall|i: int| 0 <= i < edges@.len() ==> 0 < (#[trigger] edges@[i]).0,
            forall|i: int, j: int|
                0 <= i < j < edges@.len() ==> (#[trigger] edges@[i]).0 < (#[trigger] edges@[j]).0,
            edges_hashed(old(self).open_chunk(), buf@, edges@),
            final(self).open_chunk() == open_after(old(self).open_chunk(), buf@, edges@),
    {
        let ghost orig_open = self.open_bytes@;
        let mut ofs: usize = 0;
        let len = buf.len();
        while ofs < len
            invariant
                self.wf(),
                ofs <= len,
                len == buf@.len(),
                self.bytes_total == old(self).bytes_total + ofs,
                old(self).total() + buf@.len() <= usize::MAX,
                edges_sorted(buf@, self.edges@),
                edges_cut_exact(orig_open, buf@, self.edges@),
                self.edges@.len() == 0 ==> (forall|j: int|
                    0 < j <= ofs ==> !(#[trigger] bup_cut(orig_open + buf@.take(j)))),
                self.edges@.len() > 0 ==> (forall|j: int|
                    self.edges@.last().0 < j <= ofs ==> !(#[trigger] bup_cut(
                        buf@.subrange(self.edges@.last().0 as int, j),
                    ))),
                forall|i: int| 0 <= i < self.edges@.len() ==> 0 < (#[trigger] self.edges@[i]).0,
                forall|i: int, j: int|
                    0 <= i < j < self.edges@.len() ==> (#[trigger] self.edges@[i]).0 < (
                    #[trigger] self.edges@[j]).0,
                forall|i: int|
                    0 <= i < self.edges@.len() ==> (#[trigger] self.edges@[i]).0 <= ofs,
                edges_hashed(orig_open, buf@, self.edges@),
                self.open_bytes@ == if self.edges@.len() == 0 {
                    orig_open + buf@.take(ofs as int)
                } else {
                    buf@.subrange(self.edges@.last().0 as int, ofs as int)
                },
            decreases len - ofs,
        {
            let sub = vstd::slice::slice_subrange(buf, ofs, len);
            let ghost fed_old = self.roll.fed();
            match bup_find_chunk_edge(&mut self.roll, sub) {
                Some((count, _)) => {
                    let piece = vstd::slice::slice_subrange(buf, ofs, ofs + count);
                    self.open_bytes.extend_from_slice(piece);
                    let ghost pre_edges = self.edges@;
                    let ghost pre_ofs = ofs as int;
                    let ghost closed = self.open_bytes@;
                    ofs = ofs + count;
                    self.bytes_total = self.bytes_total + count;
                    self.edge_found(ofs);
                    proof {
                        let cur = self.edges@;
                        let pre_len = pre_edges.len() as int;
                        assert(cur.take(pre_len) == pre_edges);
                        assert forall|i: int| 0 <= i < pre_len implies cur[i] == pre_edges[i] by {
                            assert(cur.take(pre_len)[i] == cur[i]);
                        }
                        assert(cur.last() == cur[cur.len() - 1]);
                        if pre_len == 0 {
                            assert((orig_open + buf@.take(pre_ofs)) + buf@.subrange(
                                pre_ofs,
                                ofs as int,
                            ) =~= orig_open + buf@.take(ofs as int));
                            assert(closed =~= edge_chunk(orig_open, buf@, cur, 0));
                            assert(cur.last().1@ == sha256_of(edge_chunk(orig_open, buf@, cur, 0)));
                        } else {
                            assert(buf@.subrange(pre_edges.last().0 as int, pre_ofs)
                                + buf@.subrange(pre_ofs, ofs as int) =~= buf@.subrange(
                                pre_edges.last().0 as int,
                                ofs as int,
                            ));
                            assert(cur[pre_len - 1] == pre_edges[pre_len - 1]);
                            assert(pre_edges.last() == pre_edges[pre_len - 1]);
                            assert(closed =~= edge_chunk(orig_open, buf@, cur, pre_len));
                            assert(cur.last().1@ == sha256_of(
                                edge_chunk(orig_open, buf@, cur, pre_len),
                            ));
                        }
                        assert forall|i: int| 0 <= i < cur.len() implies (#[trigger] cur[i]).1@
                            == sha256_of(edge_chunk(orig_open, buf@, cur, i)) && cur[i].1@.len()
                            == 32 by {
                            if i < pre_len {
                                assert(cur[i] == pre_edges[i]);
                                if i > 0 {
                                    assert(cur[i - 1] == pre_edges[i - 1]);
                                }
                                assert(edge_chunk(orig_open, buf@, cur, i) == edge_chunk(
                                    orig_open,
                                    buf@,
                                    pre_edges,
                                    i,
                                ));
                            }
                        }
                        assert forall|i: int, j: int| 0 <= i < j < cur.len() implies (
                        #[trigger] cur[i]).0 < (#[trigger] cur[j]).0 by {
                            if j < pre_len {
                                assert(cur[i] == pre_edges[i]);
                                assert(cur[j] == pre_edges[j]);
                            } else {
                                assert(cur[j] == cur.last());
                                assert(cur[i] == pre_edges[i]);
                            }
                        }
                        assert(buf@.subrange(ofs as int, ofs as int) =~= Seq::<u8>::empty());
                        assert(self.open_bytes@ =~= buf@.subrange(
                            cur.last().0 as int,
                            ofs as int,
                        ));
                        assert(sub@.take(count as int) =~= buf@.subrange(pre_ofs, ofs as int));
                        assert(fed_old + sub@.take(count as int) =~= closed);
                        assert(bup_cut(closed));
                        assert forall|i: int| 0 <= i < cur.len() implies bup_cut(
                            #[trigger] edge_chunk(orig_open, buf@, cur, i),
                        ) by {
                            if i < pre_len {
                                assert(cur[i] == pre_edges[i]);
                                if i > 0 {
                                    assert(cur[i - 1] == pre_edges[i - 1]);
                                }
                                assert(edge_chunk(orig_open, buf@, cur, i) == edge_chunk(
                                    orig_open,
                                    buf@,
                                    pre_edges,
                                    i,
                                ));
                            } else {
                                assert(edge_chunk(orig_open, buf@, cur, i) == closed);
                            }
                        }
                        assert forall|i: int, j: int|
                            0 <= i < cur.len() && (if i == 0 {
                                0
                            } else {
                                cur[i - 1].0 as int
                            }) < j < cur[i].0 implies !bup_cut(
                            #[trigger] scan_prefix(orig_open, buf@, cur, i, j),
                        ) by {
                            if i < pre_len {
                                assert(cur[i] == pre_edges[i]);
                                if i > 0 {
                                    assert(cur[i - 1] == pre_edges[i - 1]);
                                }
                                assert(scan_prefix(orig_open, buf@, cur, i, j) == scan_prefix(
                                    orig_open,
                                    buf@,
                                    pre_edges,
                                    i,
                                    j,
                                ));
                            } else {
                                if i > 0 {
                                    assert(cur[i - 1] == pre_edges[i - 1]);
                                    assert(pre_edges.last() == pre_edges[pre_len - 1]);
                                }
                                if j <= pre_ofs {
                                    if pre_len == 0 {
                                        assert(!bup_cut(orig_open + buf@.take(j)));
                                        assert(scan_prefix(orig_open, buf@, cur, i, j)
                                            == orig_open + buf@.take(j));
                                    } else {
                                        assert(!bup_cut(
                                            buf@.subrange(pre_edges.last().0 as int, j),
                                        ));
                                        assert(scan_prefix(orig_open, buf@, cur, i, j)
                                            == buf@.subrange(pre_edges.last().0 as int, j));
                                    }
                                } else {
                                    assert(!bup_cut(fed_old + sub@.take(j - pre_ofs)));
                                    assert(sub@.take(j - pre_ofs) =~= buf@.subrange(pre_ofs, j));
                                    if pre_len == 0 {
                                        assert(fed_old + sub@.take(j - pre_ofs) =~= orig_open
                                            + buf@.take(j));
                                        assert(scan_prefix(orig_open, buf@, cur, i, j)
                                            == orig_open + buf@.take(j));
                                    } else {
                                        assert(fed_old + sub@.take(j - pre_ofs) =~= buf@.subrange(
                                            pre_edges.last().0 as int,
                                            j,
                                        ));
                                        assert(scan_prefix(orig_open, buf@, cur, i, j)
                                            == buf@.subrange(pre_edges.last().0 as int, j));
                                    }
                                }
                            }
                        }
                    }
                },
                None => {
                    let piece = vstd::slice::slice_subrange(buf, ofs, len);
                    self.open_bytes.extend_from_slice(piece);
                    self.bytes_total = self.bytes_total + (len - ofs);
                    proof {
                        if self.edges@.len() == 0 {
                            assert((orig_open + buf@.take(ofs as int)) + buf@.subrange(
                                ofs as int,
                                len as int,
                            ) =~= orig_open + buf@.take(len as int));
                            assert forall|j: int| 0 < j <= len implies !(#[trigger] bup_cut(
                                orig_open + buf@.take(j),
                            )) by {
                                if j > ofs {
                                    assert(!bup_cut(fed_old + sub@.take(j - ofs)));
                                    assert(sub@.take(j - ofs) =~= buf@.subrange(ofs as int, j));
                                    assert(fed_old + sub@.take(j - ofs) =~= orig_open + buf@.take(
                                        j,
                                    ));
                                }
                            }
                        } else {
                            assert(buf@.subrange(self.edges@.last().0 as int, ofs as int)
                                + buf@.subrange(ofs as int, len as int) =~= buf@.subrange(
                                self.edges@.last().0 as int,
                                len as int,
                            ));
                            let lst = self.edges@.last().0 as int;
                            assert forall|j: int| lst < j <= len implies !(#[trigger] bup_cut(
                                buf@.subrange(lst, j),
                            )) by {
                                if j > ofs {
                                    assert(!bup_cut(fed_old + sub@.take(j - ofs)));
                                    assert(sub@.take(j - ofs) =~= buf@.subrange(ofs as int, j));
                                    assert(fed_old + sub@.take(j - ofs) =~= buf@.subrange(lst, j));
                                }
                            }
                        }
                        assert(self.roll.fed() =~= self.open_bytes@);
                    }
                    ofs = len;
                },
            }
        }
        let mut out: Vec<Edge> = Vec::new();
        std::mem::swap(&mut self.edges, &mut out);
        proof {
            assert(buf@.take(len as int) =~= buf@);
            if out@.len() > 0 {
                assert(buf@.subrange(out@.last().0 as int, len as int) =~= buf@.skip(
                    out@.last().0 as int,
                ));
            }
        }
        out
    }

    /// Close the trailing chunk: if any bytes are open, or if the stream was
    /// empty, emit one final edge (offset 0, against an empty buffer), so that
    /// even an empty stream yields exactly one chunk.
    pub fn finish(&mut self) -> (edges: Vec<Edge>)
        requires
            old(self).wf(),
            old(self).pending().len() == 0,
        ensures
            final(self).wf(),
            final(self).pending().len() == 0,
            final(self).open_chunk() == Seq::<u8>::empty(),
            old(self).open_chunk().len() != 0 || old(self).total() == 0 ==> edges@.len() == 1
                && edges@[0].0 == 0 && edges@[0].1@ == sha256_of(old(self).open_chunk())
                && edges@[0].1@.len() == 32,
            !(old(self).open_chunk().len() != 0 || old(self).total() == 0) ==> edges@.len() == 0
                && old(self).open_chunk() == Seq::<u8>::empty(),
    {
        if self.open_bytes.len() != 0 || self.bytes_total == 0 {
            self.edge_found(0);
        }
        let mut out: Vec<Edge> = Vec::new();
        std::mem::swap(&mut self.edges, &mut out);
        proof {
            if old(self).open_bytes@.len() == 0 && old(self).bytes_total != 0 {
                assert(old(self).open_bytes@ =~= Seq::<u8>::empty());
            }
            if out@.len() == 1 {
                assert(out@[0] == out@.last());
            }
        }
        out
    }
}

} // verus!
