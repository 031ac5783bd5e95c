//! The sliding-window match search shared by both codecs, and the meaning of
//! a back-reference when it is expanded again.

use vstd::prelude::*;

verus! {

/// Length of the common run of the bytes starting at `from` and the bytes
/// starting at `pos`, cut off at `cap` bytes and at the end of `data`.
///
/// The run that starts at `from` may extend past `pos`: a match may overlap
/// the bytes it describes.
pub open spec fn run_len(data: Seq<u8>, from: int, pos: int, cap: int) -> int
    decreases cap,
{
    if cap <= 0 || pos >= data.len() || data[from] != data[pos] {
        0
    } else {
        1 + run_len(data, from + 1, pos + 1, cap - 1)
    }
}

/// Length of the match at `pos` that starts `dist` bytes back.
pub open spec fn run_back(data: Seq<u8>, pos: int, cap: int, dist: int) -> int {
    run_len(data, pos - dist, pos, cap)
}

/// A candidate back-reference: how far back the match starts and how long it is.
/// `dist == 0` stands for "no match".
pub struct Match {
    pub dist: int,
    pub len: int,
}

/// The best match at `pos` among the distances `1..=upto`: the longest run of
/// at most `cap` bytes, and among equally long runs the nearest one.
pub open spec fn best_within(data: Seq<u8>, pos: int, cap: int, upto: int) -> Match
    decreases upto,
{
    if upto <= 0 {
        Match { dist: 0, len: 0 }
    } else {
        let nearer = best_within(data, pos, cap, upto - 1);
        let here = run_back(data, pos, cap, upto);
        if here > nearer.len {
            Match { dist: upto, len: here }
        } else {
            nearer
        }
    }
}

/// The farthest distance a match at `pos` may reach back with a window of `cap` bytes.
pub open spec fn reach(pos: int, cap: int) -> int {
    if pos < cap {
        pos
    } else {
        cap
    }
}

/// The match the encoder settles on at `pos`: the best one in the window,
/// unless it is shorter than `least`, in which case there is none.
pub open spec fn chosen(data: Seq<u8>, pos: int, cap: int, least: int) -> Match {
    let best = best_within(data, pos, cap, reach(pos, cap));
    if best.len < least {
        Match { dist: 0, len: 0 }
    } else {
        best
    }
}

/// What the encoder settles on at `pos`, said without the scan: where every
/// run in the window is shorter than `least`, no match; else the nearest
/// distance with the longest run, and that run.
pub open spec fn settles(data: Seq<u8>, pos: int, cap: int, least: int, found: Match) -> bool {
    if forall|d: int| 1 <= d <= reach(pos, cap) ==> #[trigger] run_back(data, pos, cap, d) < least {
        found.dist == 0 && found.len == 0
    } else {
        &&& 1 <= found.dist <= reach(pos, cap)
        &&& found.len == run_back(data, pos, cap, found.dist)
        &&& found.len >= least
        &&& forall|d: int|
            1 <= d <= reach(pos, cap) ==> #[trigger] run_back(data, pos, cap, d) <= found.len
        &&& forall|d: int| 1 <= d < found.dist ==> #[trigger] run_back(data, pos, cap, d) < found.len
    }
}

/// The match that the scan settles on is the one that `settles` describes,
/// where a match must have a byte at least.
pub proof fn lemma_chosen_settles(data: Seq<u8>, pos: int, cap: int, least: int)
    requires
        0 <= pos <= data.len(),
        0 <= cap,
        1 <= least,
    ensures
        settles(data, pos, cap, least, chosen(data, pos, cap, least)),
{
    let far = reach(pos, cap);
    let best = best_within(data, pos, cap, far);
    lemma_best_within(data, pos, cap, far);
    if best.len >= least {
        assert(run_back(data, pos, cap, best.dist) >= least);
    }
}

/// The bytes that a back-reference of `len` bytes at distance `dist` stands for
/// when `out` has been produced so far. Where `len > dist` the copy runs over
/// its own output, so the last `dist` bytes repeat.
pub open spec fn copied(out: Seq<u8>, dist: int, len: int) -> Seq<u8> {
    Seq::new(len as nat, |i: int| out[out.len() - dist + i % dist])
}

pub proof fn lemma_run_len_bounds(data: Seq<u8>, from: int, pos: int, cap: int)
    requires
        0 <= pos <= data.len(),
    ensures
        0 <= run_len(data, from, pos, cap),
        run_len(data, from, pos, cap) <= cap || cap < 0,
        pos + run_len(data, from, pos, cap) <= data.len(),
    decreases cap,
{
    if cap <= 0 || pos >= data.len() || data[from] != data[pos] {
    } else {
        lemma_run_len_bounds(data, from + 1, pos + 1, cap - 1);
    }
}

/// Every byte of a run agrees with the byte `pos - from` places before it.
pub proof fn lemma_run_len_agrees(data: Seq<u8>, from: int, pos: int, cap: int, i: int)
    requires
        0 <= i < run_len(data, from, pos, cap),
    ensures
        data[from + i] == data[pos + i],
    decreases cap,
{
    if i > 0 {
        lemma_run_len_agrees(data, from + 1, pos + 1, cap - 1, i - 1);
    }
}

/// A run stops only at its cap, at the end of the data, or at a mismatch.
pub proof fn lemma_run_len_maximal(data: Seq<u8>, from: int, pos: int, cap: int)
    requires
        0 <= pos <= data.len(),
        0 <= cap,
    ensures
        ({
            let n = run_len(data, from, pos, cap);
            n == cap || pos + n == data.len() || data[from + n] != data[pos + n]
        }),
    decreases cap,
{
    if cap <= 0 || pos >= data.len() || data[from] != data[pos] {
    } else {
        lemma_run_len_maximal(data, from + 1, pos + 1, cap - 1);
    }
}

/// What `best_within` picks: a distance in range with its run length, no
/// distance in range has a longer run, and every nearer one has a shorter run.
pub proof fn lemma_best_within(data: Seq<u8>, pos: int, cap: int, upto: int)
    requires
        0 <= upto <= pos <= data.len(),
        0 <= cap,
    ensures
        ({
            let best = best_within(data, pos, cap, upto);
            &&& 0 <= best.dist <= upto
            &&& 0 <= best.len <= cap
            &&& pos + best.len <= data.len()
            &&& best.dist == 0 <==> best.len == 0
            &&& best.dist > 0 ==> best.len == run_back(data, pos, cap, best.dist)
            &&& forall|d: int| 1 <= d <= upto ==> #[trigger] run_back(data, pos, cap, d) <= best.len
            &&& forall|d: int| 1 <= d < best.dist ==> #[trigger] run_back(data, pos, cap, d) < best.len
        }),
    decreases upto,
{
    if upto > 0 {
        lemma_best_within(data, pos, cap, upto - 1);
        lemma_run_len_bounds(data, pos - upto, pos, cap);
    }
}

/// Length of the common run of `data[from..]` and `data[pos..]`, at most `cap`.
pub fn match_len(data: &[u8], from: usize, pos: usize, cap: usize) -> (n: usize)
    requires
        from < pos <= data@.len(),
    ensures
        n == run_len(data@, from as int, pos as int, cap as int),
{
    let mut n: usize = 0;
    while n < cap && n < data.len() - pos && data[from + n] == data[pos + n]
        invariant
            from < pos <= data@.len(),
            n <= cap,
            pos + n <= data@.len(),
            run_len(data@, from as int, pos as int, cap as int) == n + run_len(
                data@,
                from + n,
                pos + n,
                cap - n,
            ),
        decreases cap - n,
    {
        n += 1;
    }
    n
}

/// Scans the window before `pos` from the nearest distance outwards and
/// returns the longest match, as `(distance, length)`; `(0, 0)` where the
/// best match is shorter than `least`, and only there.
pub fn longest_match(data: &[u8], pos: usize, cap: usize, least: usize) -> (found: (usize, usize))
    requires
        pos <= data@.len(),
    ensures
        found.0 == chosen(data@, pos as int, cap as int, least as int).dist,
        found.1 == chosen(data@, pos as int, cap as int, least as int).len,
        found.0 <= cap,
        found.0 <= pos,
        found.1 <= cap,
        pos + found.1 <= data@.len(),
        found.0 == 0 <==> found.1 == 0,
        found.0 != 0 ==> found.1 >= least,
        least >= 1 ==> settles(
            data@,
            pos as int,
            cap as int,
            least as int,
            Match { dist: found.0 as int, len: found.1 as int },
        ),
{
    proof {
        if least >= 1 {
            lemma_chosen_settles(data@, pos as int, cap as int, least as int);
        }
    }
    let far: usize = if pos < cap { pos } else { cap };
    let mut best_dist: usize = 0;
    let mut best_len: usize = 0;
    let mut d: usize = 0;
    proof {
        lemma_best_within(data@, pos as int, cap as int, 0);
    }
    while d < far
        invariant
            d <= far,
            far == reach(pos as int, cap as int),
            far <= pos <= data@.len(),
            best_dist == best_within(data@, pos as int, cap as int, d as int).dist,
            best_len == best_within(data@, pos as int, cap as int, d as int).len,
        decreases far - d,
    {
        d += 1;
        let here = match_len(data, pos - d, pos, cap);
        if here > best_len {
            best_dist = d;
            best_len = here;
        }
    }
    proof {
        lemma_best_within(data@, pos as int, cap as int, far as int);
    }
    if best_len < least {
        (0, 0)
    } else {
        (best_dist, best_len)
    }
}

} // verus!
