//! Dividing the port set into contiguous chunks, one per worker.
//!
//! With `w` workers over `n` ports, the base policy cuts `w` chunks of
//! `n / w` ports each. The `n % w` leftover ports are not folded into those
//! chunks: they get their own trailing chunks, each at most a base chunk in
//! size, so leftover ports are scanned by extra workers of their own.

use vstd::prelude::*;

verus! {

/// The concatenation of a sequence of chunks.
pub open spec fn flatten_chunks(cs: Seq<Seq<u16>>) -> Seq<u16>
    decreases cs.len(),
{
    if cs.len() == 0 {
        Seq::empty()
    } else {
        flatten_chunks(cs.drop_last()) + cs.last()
    }
}

pub proof fn lemma_flatten_push(cs: Seq<Seq<u16>>, c: Seq<u16>)
    ensures
        flatten_chunks(cs.push(c)) == flatten_chunks(cs) + c,
{
    assert(cs.push(c).drop_last() =~= cs);
    assert(cs.push(c).last() == c);
}

/// Copies the ports `lo..hi` into a fresh chunk.
fn make_chunk(ports: &Vec<u16>, lo: usize, hi: usize) -> (c: Vec<u16>)
    requires
        lo <= hi <= ports@.len(),
    ensures
        c@ == ports@.subrange(lo as int, hi as int),
{
    let mut c: Vec<u16> = Vec::new();
    let mut i: usize = lo;
    while i < hi
        invariant
            lo <= i <= hi <= ports@.len(),
            c@ =~= ports@.subrange(lo as int, i as int),
        decreases hi - i,
    {
        let p = ports[i];
        c.push(p);
        proof {
            assert(c@ =~= ports@.subrange(lo as int, i + 1));
        }
        i += 1;
    }
    c
}

/// Divides the ports into contiguous chunks: one chunk of `n / workers`
/// ports for each worker, then as many trailing chunks as the leftover
/// `n % workers` ports need, each trailing chunk no bigger than a base
/// chunk. Every port stands in exactly one chunk, in the original order.
pub fn partition(ports: &Vec<u16>, workers: u32) -> (chunks: Vec<Vec<u16>>)
    requires
        2 <= workers,
        workers as int <= ports@.len(),
    ensures
        ({
            let cs = ports@.len() as int / workers as int;
            let rem = ports@.len() as int % workers as int;
            &&& flatten_chunks(chunks@.map_values(|c: Vec<u16>| c@)) == ports@
            &&& chunks@.len() == workers + if rem == 0 {
                0int
            } else {
                (rem + cs - 1) / cs
            }
            &&& forall|i: int|
                0 <= i < workers ==> (#[trigger] chunks@[i])@.len() == cs
            &&& forall|i: int|
                workers <= i < chunks@.len() ==> 0 < (#[trigger] chunks@[i])@.len() <= cs
        }),
{
    let len = ports.len();
    let w = workers as usize;
    let cs = len / w;
    let rem = len % w;
    proof {
        assert(cs >= 1 && cs * w + rem == len && rem < w) by (nonlinear_arith)
            requires
                cs == len / w,
                rem == len % w,
                2 <= w <= len,
        ;
    }
    let mut chunks: Vec<Vec<u16>> = Vec::new();
    let mut i: usize = 0;
    while i < w
        invariant
            len == ports@.len(),
            cs == len / w,
            rem == len % w,
            cs * w + rem == len,
            1 <= cs,
            2 <= w,
            i <= w,
            chunks@.len() == i,
            forall|j: int| 0 <= j < i ==> (#[trigger] chunks@[j])@.len() == cs,
            flatten_chunks(chunks@.map_values(|c: Vec<u16>| c@)) =~= ports@.subrange(
                0,
                (i * cs) as int,
            ),
        decreases w - i,
    {
        proof {
            assert(i * cs + cs <= w * cs) by (nonlinear_arith)
                requires
                    i < w,
                    cs >= 1,
            ;
            assert(w * cs == cs * w) by (nonlinear_arith);
        }
        let lo = i * cs;
        let hi = lo + cs;
        let c = make_chunk(ports, lo, hi);
        let ghost pre = chunks@.map_values(|c: Vec<u16>| c@);
        chunks.push(c);
        proof {
            assert(chunks@.map_values(|c: Vec<u16>| c@) =~= pre.push(ports@.subrange(
                lo as int,
                hi as int,
            )));
            lemma_flatten_push(pre, ports@.subrange(lo as int, hi as int));
            assert(ports@.subrange(0, lo as int) + ports@.subrange(lo as int, hi as int)
                =~= ports@.subrange(0, hi as int));
            assert((i + 1) * cs == i * cs + cs) by (nonlinear_arith);
        }
        i += 1;
    }
    let base = w * cs;
    proof {
        assert(w * cs == cs * w) by (nonlinear_arith);
    }
    if rem == 0 {
        proof {
            assert(ports@.subrange(0, len as int) =~= ports@);
        }
        return chunks;
    }
    let extra = (rem + cs - 1) / cs;
    proof {
        assert((extra - 1) * cs <= rem - 1 && rem <= extra * cs) by (nonlinear_arith)
            requires
                extra as int == (rem as int + cs as int - 1) / (cs as int),
                1 <= cs,
                1 <= rem,
        ;
    }
    let mut k: usize = 0;
    while k < extra
        invariant
            len == ports@.len(),
            cs * w + rem == len,
            base == w * cs,
            1 <= cs,
            1 <= rem,
            extra as int == (rem as int + cs as int - 1) / (cs as int),
            (extra - 1) * cs <= rem - 1,
            rem <= extra * cs,
            k <= extra,
            chunks@.len() == w + k,
            forall|j: int| 0 <= j < w ==> (#[trigger] chunks@[j])@.len() == cs,
            forall|j: int|
                w <= j < chunks@.len() ==> 0 < (#[trigger] chunks@[j])@.len() <= cs,
            flatten_chunks(chunks@.map_values(|c: Vec<u16>| c@)) =~= ports@.subrange(
                0,
                if base + k * cs <= len {
                    (base + k * cs) as int
                } else {
                    len as int
                },
            ),
        decreases extra - k,
    {
        proof {
            assert(k * cs <= (extra - 1) * cs) by (nonlinear_arith)
                requires
                    k <= extra - 1,
                    cs >= 1,
            ;
            assert(k * cs + cs <= extra * cs) by (nonlinear_arith)
                requires
                    k + 1 <= extra,
                    cs >= 1,
            ;
            assert(w * cs == cs * w) by (nonlinear_arith);
            assert(base + k * cs <= len - 1);
        }
        let lo = base + k * cs;
        let hi = if cs <= len - lo {
            lo + cs
        } else {
            len
        };
        let c = make_chunk(ports, lo, hi);
        let ghost pre = chunks@.map_values(|c: Vec<u16>| c@);
        chunks.push(c);
        proof {
            assert(chunks@.map_values(|c: Vec<u16>| c@) =~= pre.push(ports@.subrange(
                lo as int,
                hi as int,
            )));
            lemma_flatten_push(pre, ports@.subrange(lo as int, hi as int));
            assert(ports@.subrange(0, lo as int) + ports@.subrange(lo as int, hi as int)
                =~= ports@.subrange(0, hi as int));
            assert((k + 1) * cs == k * cs + cs) by (nonlinear_arith);
        }
        k += 1;
    }
    proof {
        assert(base + extra * cs >= len);
        assert(ports@.subrange(0, len as int) =~= ports@);
    }
    chunks
}

} // verus!
