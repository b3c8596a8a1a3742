//! H.265 pictures: framing, classification of access units and chunk planning. Selection and
//! resizing are those of H.264.
use std::ops::Range;
use vstd::prelude::*;
use vstd::slice::slice_subrange;
use crate::arith::{clamp_i64, saturating_difference};
use crate::nal::{
    annexb, annexb_of, fault_from, frames_from, frames_inside, law_annexb_of_stored_units,
    law_first_malformed_unit_is_named, law_framed_data_is_stored_units, law_header_rules,
    law_stored_units_are_found, length_prefixed, prefix_bytes, prefix_limit, split_units, storable,
    to_annexb, unit_bytes, units_of, Frame, HeaderRule, NalError,
};

pub use crate::hevc_config::{
    check_hevc_sps, hevc_track, hvcc_parameter_sets, prepare_hevc, video_color, HevcSetup,
    HevcSpsFacts, HvccError, VuiColor,
};

verus! {

/// A chunk of an H.265 clip: the access units that one decoder feeds on, and the
/// presentation interval whose pictures that decoder is responsible for.
#[derive(Debug, PartialEq, Eq)]
pub struct HevcChunk {
    /// The IRAP access unit that this chunk starts from.
    pub head: usize,
    /// The rest of the chunk in decode order: everything after this chunk's own RASL
    /// run (those belong to the previous chunk) up to and including the next chunk's
    /// IRAP and the RASL pictures that follow it.
    pub tail: Range<usize>,
    /// Presentation interval that this chunk owns, in milliseconds: `[start, end)`.
    pub present: (i64, i64),
}

impl Clone for HevcChunk {
    fn clone(&self) -> (copy: Self)
        ensures
            copy == *self,
    {
        HevcChunk {
            head: self.head,
            tail: Range { start: self.tail.start, end: self.tail.end },
            present: (self.present.0, self.present.1),
        }
    }
}

/// The first access unit from `from` on that is not a RASL picture.
pub open spec fn rasl_run_end(rasl: Seq<bool>, from: int, n: int) -> int
    decreases n - from,
{
    if from < n && rasl[from] {
        rasl_run_end(rasl, from + 1, n)
    } else {
        from
    }
}

/// The first access units of the chunks among the first `count` ones: IRAP access units far
/// enough apart, never inside a RASL run.
pub open spec fn hevc_starts(
    pts: Seq<i64>,
    irap: Seq<bool>,
    rasl: Seq<bool>,
    target_ms: u64,
    count: nat,
) -> Seq<usize>
    decreases count,
{
    if count <= 1 {
        seq![0usize]
    } else {
        let k = count - 1;
        let earlier = hevc_starts(pts, irap, rasl, target_ms, k as nat);
        if irap[k] && !rasl[k] && clamp_i64(pts[k] - pts[earlier.last() as int])
            >= target_ms as i64 {
            earlier.push(k as usize)
        } else {
            earlier
        }
    }
}

/// The chunk that starts at `starts[c]`.
pub open spec fn hevc_chunk(pts: Seq<i64>, rasl: Seq<bool>, starts: Seq<usize>, c: int) -> HevcChunk {
    let n = pts.len() as int;
    let start = starts[c] as int;
    let tail_start = rasl_run_end(rasl, start + 1, n);
    let last = c + 1 >= starts.len();
    let decode_end = if last {
        n
    } else {
        rasl_run_end(rasl, starts[c + 1] + 1, n)
    };
    HevcChunk {
        head: starts[c],
        tail: Range {
            start: tail_start as usize,
            end: if decode_end > tail_start {
                decode_end as usize
            } else {
                tail_start as usize
            },
        },
        present: (
            pts[start],
            if last {
                i64::MAX
            } else {
                pts[starts[c + 1] as int]
            },
        ),
    }
}

/// The chunks that the starts cut a clip into.
pub open spec fn hevc_chunks(pts: Seq<i64>, irap: Seq<bool>, rasl: Seq<bool>, target_ms: u64) -> Seq<
    HevcChunk,
> {
    let starts = hevc_starts(pts, irap, rasl, target_ms, pts.len());
    Seq::new(starts.len(), |c: int| hevc_chunk(pts, rasl, starts, c))
}

/// A chunk decodes access unit `i`.
pub open spec fn decodes(chunk: HevcChunk, i: int) -> bool {
    chunk.head == i || chunk.tail.start <= i < chunk.tail.end
}

/// A chunk is responsible for the picture at `stamp`.
pub open spec fn owns(chunk: HevcChunk, stamp: i64) -> bool {
    chunk.present.0 <= stamp < chunk.present.1
}

/// Every interval but the last ends after it starts.
pub open spec fn ascending(chunks: Seq<HevcChunk>) -> bool {
    forall|c: int|
        0 <= c < chunks.len() - 1 ==> (#[trigger] chunks[c]).present.0 < chunks[c].present.1
}

/// The chunk that owns picture `i` decodes it.
pub open spec fn decoded_by_owner(chunks: Seq<HevcChunk>, pts: Seq<i64>, i: int) -> bool {
    exists|c: int|
        0 <= c < chunks.len() && owns(#[trigger] chunks[c], pts[i]) && decodes(chunks[c], i)
}

/// The intervals ascend, and every picture that `keep` keeps is decoded by its owner.
pub open spec fn partitions_pictures(
    chunks: Seq<HevcChunk>,
    pts: Seq<i64>,
    keep: spec_fn(i64) -> bool,
) -> bool {
    &&& ascending(chunks)
    &&& forall|i: int|
        0 <= i < pts.len() && keep(#[trigger] pts[i]) ==> decoded_by_owner(chunks, pts, i)
}

/// Whatever `test` answers is what `keep` says.
pub open spec fn answers<F: Fn(i64) -> bool>(test: F, keep: spec_fn(i64) -> bool) -> bool {
    forall|stamp: i64, answer: bool|
        call_ensures(test, (stamp,), answer) ==> answer == keep(stamp)
}

/// Where the RASL run from `from` on ends.
fn skip_rasl(rasl: &[bool], from: usize, n: usize) -> (end: usize)
    requires
        from <= n <= rasl@.len(),
    ensures
        end == rasl_run_end(rasl@, from as int, n as int),
        from <= end <= n,
{
    let mut end: usize = from;
    while end < n && rasl[end]
        invariant
            from <= end <= n <= rasl@.len(),
            rasl_run_end(rasl@, from as int, n as int) == rasl_run_end(rasl@, end as int, n as int),
        decreases n - end,
    {
        end += 1;
    }
    end
}

proof fn lemma_hevc_starts(
    pts: Seq<i64>,
    irap: Seq<bool>,
    rasl: Seq<bool>,
    target_ms: u64,
    count: nat,
)
    requires
        count <= pts.len() <= usize::MAX,
    ensures
        ({
            let starts = hevc_starts(pts, irap, rasl, target_ms, count);
            &&& starts.len() > 0
            &&& starts[0] == 0
            &&& forall|i: int|
                0 < i < starts.len() ==> {
                    &&& starts[i - 1] < #[trigger] starts[i] < count
                    &&& irap[starts[i] as int]
                    &&& !rasl[starts[i] as int]
                    &&& clamp_i64(pts[starts[i] as int] - pts[starts[i - 1] as int])
                        >= target_ms as i64
                }
        }),
    decreases count,
{
    if count > 1 {
        let earlier = hevc_starts(pts, irap, rasl, target_ms, (count - 1) as nat);
        lemma_hevc_starts(pts, irap, rasl, target_ms, (count - 1) as nat);
        assert(earlier.last() < count - 1) by {
            if earlier.len() > 1 {
                assert(earlier[earlier.len() - 1] < count - 1);
            }
        }
    }
}

/// No two chunks own the same time.
spec fn one_owner(chunks: Seq<HevcChunk>) -> bool {
    forall|stamp: i64, a: int, b: int|
        0 <= a < chunks.len() && 0 <= b < chunks.len() && #[trigger] owns(chunks[a], stamp)
            && #[trigger] owns(chunks[b], stamp) ==> a == b
}

/// Where the chunks start.
fn find_starts(pts: &[i64], irap: &[bool], rasl: &[bool], target_ms: u64) -> (starts: Vec<usize>)
    requires
        pts@.len() > 1 ==> irap@.len() >= pts@.len() && rasl@.len() >= pts@.len(),
    ensures
        starts@ == hevc_starts(pts@, irap@, rasl@, target_ms, pts@.len()),
{
    let n: usize = pts.len();
    let mut starts: Vec<usize> = Vec::new();
    starts.push(0);
    if n == 0 {
        assert(starts@ =~= seq![0usize]);
        return starts;
    }
    let mut k: usize = 1;
    while k < n
        invariant
            1 <= k <= n == pts@.len(),
            n > 1 ==> irap@.len() >= n && rasl@.len() >= n,
            starts@ == hevc_starts(pts@, irap@, rasl@, target_ms, k as nat),
            starts@.len() > 0,
            starts@.last() < k,
        decreases n - k,
    {
        if irap[k] && !rasl[k] {
            let previous: i64 = pts[starts[starts.len() - 1]];
            if saturating_difference(pts[k], previous) >= target_ms as i64 {
                starts.push(k);
            }
        }
        k += 1;
    }
    starts
}

/// The chunks that `starts` cut a clip into.
fn cut_chunks(
    pts: &[i64],
    rasl: &[bool],
    starts: &Vec<usize>,
    irap: Ghost<Seq<bool>>,
    target_ms: u64,
) -> (chunks: Vec<HevcChunk>)
    requires
        pts@.len() > 0,
        pts@.len() > 1 ==> rasl@.len() >= pts@.len(),
        starts@ == hevc_starts(pts@, irap@, rasl@, target_ms, pts@.len()),
    ensures
        chunks@ == hevc_chunks(pts@, irap@, rasl@, target_ms),
{
    let n: usize = pts.len();
    proof {
        lemma_hevc_starts(pts@, irap@, rasl@, target_ms, n as nat);
    }
    let mut chunks: Vec<HevcChunk> = Vec::new();
    let mut c: usize = 0;
    while c < starts.len()
        invariant
            c <= starts@.len(),
            n == pts@.len(),
            n > 0,
            n > 1 ==> rasl@.len() >= n,
            starts@.len() > 1 ==> n > 1,
            forall|i: int| 0 <= i < starts@.len() ==> #[trigger] starts@[i] < n,
            chunks@ == Seq::new(c as nat, |j: int| hevc_chunk(pts@, rasl@, starts@, j)),
        decreases starts@.len() - c,
    {
        let start: usize = starts[c];
        let mut decode_end: usize = n;
        let mut present_end: i64 = i64::MAX;
        if c + 1 < starts.len() {
            let next: usize = starts[c + 1];
            decode_end = skip_rasl(rasl, next + 1, n);
            present_end = pts[next];
        }
        let mut tail_start: usize = start + 1;
        if n > 1 {
            tail_start = skip_rasl(rasl, start + 1, n);
        }
        let tail_end: usize = decode_end.max(tail_start);
        let chunk = HevcChunk {
            head: start,
            tail: tail_start..tail_end,
            present: (pts[start], present_end),
        };
        assert(chunk == hevc_chunk(pts@, rasl@, starts@, c as int));
        chunks.push(chunk);
        c += 1;
        assert(chunks@ =~= Seq::new(c as nat, |j: int| hevc_chunk(pts@, rasl@, starts@, j)));
    }
    assert(chunks@ =~= hevc_chunks(pts@, irap@, rasl@, target_ms));
    chunks
}

/// Every interval but the last ends after it starts.
fn intervals_ascend(chunks: &Vec<HevcChunk>) -> (ascend: bool)
    ensures
        ascend == ascending(chunks@),
{
    let count: usize = chunks.len();
    let mut c: usize = 0;
    while c < count
        invariant
            c <= count == chunks@.len(),
            forall|j: int|
                0 <= j < c && j < count - 1 ==> (#[trigger] chunks@[j]).present.0
                    < chunks@[j].present.1,
        decreases count - c,
    {
        if c < count - 1 && chunks[c].present.1 <= chunks[c].present.0 {
            assert(chunks@[c as int].present.0 >= chunks@[c as int].present.1);
            return false;
        }
        c += 1;
    }
    true
}

/// The chunk that owns `stamp` decodes access unit `i`.
fn owner_decodes(chunks: &Vec<HevcChunk>, stamp: i64, i: usize) -> (decoded: bool)
    requires
        one_owner(chunks@),
    ensures
        decoded <==> exists|c: int|
            0 <= c < chunks@.len() && owns(#[trigger] chunks@[c], stamp) && decodes(
                chunks@[c],
                i as int,
            ),
{
    let mut owner: usize = 0;
    while owner < chunks.len()
        invariant
            owner <= chunks@.len(),
            one_owner(chunks@),
            forall|j: int| 0 <= j < owner ==> !owns(#[trigger] chunks@[j], stamp),
        decreases chunks@.len() - owner,
    {
        let chunk = &chunks[owner];
        if stamp >= chunk.present.0 && stamp < chunk.present.1 {
            assert(owns(chunks@[owner as int], stamp));
            return chunk.head == i || (chunk.tail.start <= i && i < chunk.tail.end);
        }
        owner += 1;
    }
    false
}

/// Splits an H.265 clip at IRAP access units.
///
/// An IDR resets the decoder outright. A CRA does too, but the RASL pictures that follow
/// it in decode order present *before* it and reference pictures from the previous GOP, so
/// they belong to the previous chunk: each chunk decodes through the next chunk's IRAP and
/// its RASL run, and hands out only the pictures inside its own presentation interval.
///
/// Returns a single chunk when the clip cannot be split, and `None` when the presentation
/// intervals do not partition the pictures, which sends the caller to the single-decoder
/// path.
pub fn plan_hevc_chunks<F: Fn(i64) -> bool>(
    pts: &[i64],
    irap: &[bool],
    rasl: &[bool],
    target_ms: u64,
    in_range: F,
) -> (plan: Option<Vec<HevcChunk>>)
    requires
        pts@.len() > 1 ==> irap@.len() >= pts@.len() && rasl@.len() >= pts@.len(),
        forall|stamp: i64| call_requires(in_range, (stamp,)),
    ensures
        pts@.len() == 0 ==> plan is None,
        plan matches Some(chunks) ==> chunks@ == hevc_chunks(pts@, irap@, rasl@, target_ms),
        forall|keep: spec_fn(i64) -> bool|
            pts@.len() > 0 && #[trigger] answers(in_range, keep) ==> (plan is Some
                <==> partitions_pictures(
                hevc_chunks(pts@, irap@, rasl@, target_ms),
                pts@,
                keep,
            )),
{
    if pts.len() == 0 {
        return None;
    }
    let starts = find_starts(pts, irap, rasl, target_ms);
    let chunks = cut_chunks(pts, rasl, &starts, Ghost(irap@), target_ms);
    if !intervals_ascend(&chunks) {
        return None;
    }
    let ghost all = chunks@;
    proof {
        assert forall|stamp: i64, a: int, b: int|
            0 <= a < all.len() && 0 <= b < all.len() && #[trigger] owns(all[a], stamp)
                && #[trigger] owns(all[b], stamp) implies a == b by {
            lemma_one_owner(pts@, irap@, rasl@, target_ms, stamp, a, b);
        }
    }
    let mut i: usize = 0;
    while i < pts.len()
        invariant
            i <= pts@.len(),
            chunks@ == all,
            all == hevc_chunks(pts@, irap@, rasl@, target_ms),
            one_owner(all),
            ascending(all),
            forall|stamp: i64| call_requires(in_range, (stamp,)),
            forall|keep: spec_fn(i64) -> bool, j: int|
                #[trigger] answers(in_range, keep) && 0 <= j < i && keep(#[trigger] pts@[j])
                    ==> decoded_by_owner(all, pts@, j),
        decreases pts@.len() - i,
    {
        let stamp: i64 = pts[i];
        if in_range(stamp) && !owner_decodes(&chunks, stamp, i) {
            proof {
                assert(!decoded_by_owner(all, pts@, i as int));
                assert forall|keep: spec_fn(i64) -> bool| #[trigger]
                    answers(in_range, keep) implies !partitions_pictures(all, pts@, keep) by {
                    assert(keep(pts@[i as int]));
                }
            }
            return None;
        }
        i += 1;
    }
    Some(chunks)
}

proof fn lemma_intervals_follow(
    pts: Seq<i64>,
    irap: Seq<bool>,
    rasl: Seq<bool>,
    target_ms: u64,
    a: int,
    b: int,
)
    requires
        pts.len() <= usize::MAX,
        ascending(hevc_chunks(pts, irap, rasl, target_ms)),
        0 <= a < b < hevc_chunks(pts, irap, rasl, target_ms).len(),
    ensures
        hevc_chunks(pts, irap, rasl, target_ms)[a].present.1 <= hevc_chunks(
            pts,
            irap,
            rasl,
            target_ms,
        )[b].present.0,
    decreases b - a,
{
    let chunks = hevc_chunks(pts, irap, rasl, target_ms);
    assert(chunks[a].present.1 == chunks[a + 1].present.0);
    if a + 1 < b {
        lemma_intervals_follow(pts, irap, rasl, target_ms, a + 1, b);
        assert(chunks[a + 1].present.0 < chunks[a + 1].present.1);
    }
}

proof fn lemma_one_owner(
    pts: Seq<i64>,
    irap: Seq<bool>,
    rasl: Seq<bool>,
    target_ms: u64,
    stamp: i64,
    a: int,
    b: int,
)
    requires
        pts.len() <= usize::MAX,
        ascending(hevc_chunks(pts, irap, rasl, target_ms)),
        0 <= a < hevc_chunks(pts, irap, rasl, target_ms).len(),
        0 <= b < hevc_chunks(pts, irap, rasl, target_ms).len(),
        owns(hevc_chunks(pts, irap, rasl, target_ms)[a], stamp),
        owns(hevc_chunks(pts, irap, rasl, target_ms)[b], stamp),
    ensures
        a == b,
{
    if a < b {
        lemma_intervals_follow(pts, irap, rasl, target_ms, a, b);
    } else if b < a {
        lemma_intervals_follow(pts, irap, rasl, target_ms, b, a);
    }
}

/// Where a clip can be split, its chunks' intervals leave no gap and do not overlap, the
/// first chunk starts at the first access unit, and every later one starts at an IRAP access
/// unit that is not a RASL picture.
pub proof fn law_hevc_intervals_partition(
    pts: Seq<i64>,
    irap: Seq<bool>,
    rasl: Seq<bool>,
    target_ms: u64,
)
    requires
        0 < pts.len() <= usize::MAX,
    ensures
        ({
            let chunks = hevc_chunks(pts, irap, rasl, target_ms);
            &&& chunks.len() > 0
            &&& chunks[0].head == 0
            &&& chunks.last().present.1 == i64::MAX
            &&& forall|c: int|
                0 < c < chunks.len() ==> {
                    &&& chunks[c - 1].head < (#[trigger] chunks[c]).head < pts.len()
                    &&& chunks[c - 1].present.1 == chunks[c].present.0
                    &&& irap[chunks[c].head as int]
                    &&& !rasl[chunks[c].head as int]
                }
        }),
{
    lemma_hevc_starts(pts, irap, rasl, target_ms, pts.len());
    let starts = hevc_starts(pts, irap, rasl, target_ms, pts.len());
    let chunks = hevc_chunks(pts, irap, rasl, target_ms);
    assert forall|c: int| 0 < c < chunks.len() implies {
        &&& chunks[c - 1].head < (#[trigger] chunks[c]).head < pts.len()
        &&& chunks[c - 1].present.1 == chunks[c].present.0
        &&& irap[chunks[c].head as int]
        &&& !rasl[chunks[c].head as int]
    } by {
        assert(starts[c - 1] < starts[c] < pts.len());
    }
}

/// In an accepted plan every kept picture has exactly one chunk that is responsible for it,
/// and that chunk decodes it.
pub proof fn law_hevc_picture_has_one_owner(
    pts: Seq<i64>,
    irap: Seq<bool>,
    rasl: Seq<bool>,
    target_ms: u64,
    keep: spec_fn(i64) -> bool,
    i: int,
    c: int,
)
    requires
        0 < pts.len() <= usize::MAX,
        partitions_pictures(hevc_chunks(pts, irap, rasl, target_ms), pts, keep),
        0 <= i < pts.len(),
        keep(pts[i]),
        0 <= c < hevc_chunks(pts, irap, rasl, target_ms).len(),
    ensures
        decoded_by_owner(hevc_chunks(pts, irap, rasl, target_ms), pts, i),
        owns(hevc_chunks(pts, irap, rasl, target_ms)[c], pts[i]) ==> decodes(
            hevc_chunks(pts, irap, rasl, target_ms)[c],
            i,
        ) && forall|d: int|
            0 <= d < hevc_chunks(pts, irap, rasl, target_ms).len() && owns(
                #[trigger] hevc_chunks(pts, irap, rasl, target_ms)[d],
                pts[i],
            ) ==> d == c,
{
    let chunks = hevc_chunks(pts, irap, rasl, target_ms);
    assert(decoded_by_owner(chunks, pts, i));
    if owns(chunks[c], pts[i]) {
        assert forall|d: int| 0 <= d < chunks.len() && owns(#[trigger] chunks[d], pts[i]) implies d
            == c by {
            lemma_one_owner(pts, irap, rasl, target_ms, pts[i], d, c);
        }
        let owner = choose|d: int|
            0 <= d < chunks.len() && owns(#[trigger] chunks[d], pts[i]) && decodes(chunks[d], i);
        assert(owner == c);
    }
}

/// What the conversion of an H.265 access unit to Annex-B gives.
pub open spec fn hevc_converted(data: Seq<u8>, length_size: nat) -> Result<Seq<u8>, NalError> {
    annexb_of(data, length_size, HeaderRule::HevcBaseLayer)
}

/// An H.265 access unit of valid units is converted to their Annex-B stream exactly where all of
/// them are of the base layer; a unit of another layer is an invalid header. Whatever is
/// converted is a clean run of such units.
pub proof fn law_base_layer_is_converted(units: Seq<Seq<u8>>, size: nat, i: int)
    requires
        valid_units(units, size),
        units.len() > 0,
    ensures
        ({
            let data = length_prefixed(units, size);
            let base = forall|i: int|
                0 <= i < units.len() ==> (#[trigger] units[i])[0] % 2 == 0 && units[i][1] < 8;
            &&& base ==> hevc_converted(data, size) == Ok::<Seq<u8>, NalError>(annexb(units))
            &&& 0 <= i < units.len() && !(units[i][0] % 2 == 0 && units[i][1] < 8) && (forall|k: int|
                0 <= k < i ==> (#[trigger] units[k])[0] % 2 == 0 && units[k][1] < 8)
                ==> hevc_converted(data, size) == Err::<Seq<u8>, NalError>(NalError::BadHeader)
        }),
{
    let data = length_prefixed(units, size);
    let rule = HeaderRule::HevcBaseLayer;
    assert forall|k: int| 0 <= k < units.len() implies (crate::nal::header_fault(
        #[trigger] units[k],
        rule,
    ) is None <==> units[k][0] % 2 == 0 && units[k][1] < 8) by {
        law_header_rules(units[k]);
    }
    if forall|i: int|
        0 <= i < units.len() ==> (#[trigger] units[i])[0] % 2 == 0 && units[i][1] < 8 {
        assert(storable(units, size, rule));
        law_annexb_of_stored_units(units, size, rule);
    }
    if 0 <= i < units.len() && !(units[i][0] % 2 == 0 && units[i][1] < 8) && (forall|k: int|
        0 <= k < i ==> (#[trigger] units[k])[0] % 2 == 0 && units[k][1] < 8) {
        let good = units.take(i);
        let rest = units.skip(i);
        lemma_stored_in_two(units, i, size);
        assert(storable(good, size, rule));
        assert(rest[0] == units[i]);
        let n = units[i].len();
        let body = units[i] + length_prefixed(rest.drop_first(), size);
        let tail = length_prefixed(rest, size);
        assert(tail =~= prefix_bytes(n, size) + body);
        assert(body.take(n as int) =~= units[i]);
        law_header_rules(units[i]);
        law_first_malformed_unit_is_named(good, tail, n, body, size, rule);
    }
}

proof fn lemma_stored_in_two(units: Seq<Seq<u8>>, at: int, size: nat)
    requires
        0 <= at <= units.len(),
    ensures
        length_prefixed(units, size) == length_prefixed(units.take(at), size) + length_prefixed(
            units.skip(at),
            size,
        ),
    decreases at,
{
    if at == 0 {
        assert(units.skip(0) =~= units);
        assert(units.take(0) =~= Seq::<Seq<u8>>::empty());
        assert(length_prefixed(units, size) =~= Seq::<u8>::empty() + length_prefixed(units, size));
    } else {
        let rest = units.drop_first();
        lemma_stored_in_two(rest, at - 1, size);
        assert(rest.take(at - 1) =~= units.take(at).drop_first());
        assert(rest.skip(at - 1) =~= units.skip(at));
        assert(units.take(at)[0] == units[0]);
        assert(length_prefixed(units, size) =~= length_prefixed(units.take(at), size)
            + length_prefixed(units.skip(at), size));
    }
}

/// The Annex-B form of an H.265 access unit. Truncated or empty NAL units and invalid
/// headers are refused.
pub fn hvcc_to_annexb(data: &[u8], length_size: usize) -> (res: Result<Vec<u8>, NalError>)
    ensures
        match res {
            Ok(out) => hevc_converted(data@, length_size as nat) == Ok::<Seq<u8>, NalError>(out@),
            Err(e) => hevc_converted(data@, length_size as nat) == Err::<Seq<u8>, NalError>(e),
        },
        match res {
            Ok(out) => annexb_of(data@, length_size as nat, HeaderRule::HevcBaseLayer) == Ok::<
                Seq<u8>,
                NalError,
            >(out@),
            Err(e) => annexb_of(data@, length_size as nat, HeaderRule::HevcBaseLayer) == Err::<
                Seq<u8>,
                NalError,
            >(e),
        },
{
    to_annexb(data, length_size, HeaderRule::HevcBaseLayer)
}

/// What the two header bytes of an H.265 NAL unit say.
#[derive(Clone, Copy, Debug, PartialEq, Eq, Structural)]
pub struct UnitHeader {
    pub unit_type: u8,
    pub layer_id: u8,
    pub temporal_id: u8,
}

/// The header at the front of `unit`, where it is a valid one.
pub open spec fn unit_header(unit: Seq<u8>) -> Option<UnitHeader> {
    if unit.len() < 2 || unit[0] & 0x80 != 0 || unit[1] & 7 == 0 {
        None
    } else {
        Some(
            UnitHeader {
                unit_type: (unit[0] >> 1) & 0x3f,
                layer_id: ((unit[0] & 1) << 5) | (unit[1] >> 3),
                temporal_id: ((unit[1] & 7) - 1) as u8,
            },
        )
    }
}

/// Calls `rusty_h265::nal::NalHeader::parse`: the header in the first two bytes, or nothing
/// where they are not both there, the forbidden bit is set or the temporal id is missing.
/// The type is handed over as its number, by `rusty_h265::nal::NalType::id`.
#[verifier::external_body]
pub(crate) fn parse_unit_header(unit: &[u8]) -> (header: Option<UnitHeader>)
    ensures
        header == unit_header(unit@),
{
    rusty_h265::nal::NalHeader::parse(unit).map(
        |h|
            UnitHeader {
                unit_type: h.nal_type.id(),
                layer_id: h.layer_id,
                temporal_id: h.temporal_id,
            },
    )
}

/// A coded slice.
pub open spec fn is_vcl(unit_type: u8) -> bool {
    unit_type < 32
}

/// A slice of a picture at which decoding can start.
pub open spec fn is_irap(unit_type: u8) -> bool {
    16 <= unit_type <= 23
}

/// A slice of a picture that is skipped when decoding starts at the IRAP picture before it.
pub open spec fn is_rasl(unit_type: u8) -> bool {
    unit_type == 8 || unit_type == 9
}

/// A slice of a picture that its own sub-layer does not refer to.
pub open spec fn is_sub_layer_non_ref(unit_type: u8) -> bool {
    unit_type <= 14 && unit_type % 2 == 0
}

/// Supplemental information, an access unit delimiter or filler.
pub open spec fn is_hevc_side_unit(unit_type: u8) -> bool {
    unit_type == 35 || unit_type == 38 || unit_type == 39 || unit_type == 40
}

/// The headers of an access unit's NAL units, up to the first malformed one.
pub open spec fn headers_of(data: Seq<u8>, length_size: nat) -> Seq<UnitHeader> {
    if 1 <= length_size <= 4 {
        frames_from(data, 0, length_size, HeaderRule::HevcAnyLayer).map_values(
            |frame: Frame| unit_header(unit_bytes(data, frame))->Some_0,
        )
    } else {
        Seq::empty()
    }
}

/// Every NAL unit of an access unit is well formed.
pub open spec fn well_framed(data: Seq<u8>, length_size: nat) -> bool {
    &&& 1 <= length_size <= 4
    &&& fault_from(data, 0, length_size, HeaderRule::HevcAnyLayer) is None
}

/// The headers of an access unit, and whether all of its NAL units are well formed.
fn read_headers(data: &[u8], length_size: usize) -> (res: (Vec<UnitHeader>, bool))
    ensures
        res.0@ == headers_of(data@, length_size as nat),
        res.1 == well_framed(data@, length_size as nat),
{
    let mut headers: Vec<UnitHeader> = Vec::new();
    if length_size < 1 || length_size > 4 {
        assert(headers@ =~= headers_of(data@, length_size as nat));
        return (headers, false);
    }
    let framing = split_units(data, length_size, HeaderRule::HevcAnyLayer);
    let ghost all = headers_of(data@, length_size as nat);
    let mut i: usize = 0;
    while i < framing.frames.len()
        invariant
            i <= framing.frames@.len() == all.len(),
            1 <= length_size <= 4,
            framing.frames@ == frames_from(
                data@,
                0,
                length_size as nat,
                HeaderRule::HevcAnyLayer,
            ),
            frames_inside(data@, framing.frames@, HeaderRule::HevcAnyLayer),
            all == headers_of(data@, length_size as nat),
            headers@ == all.take(i as int),
        decreases framing.frames@.len() - i,
    {
        let frame = framing.frames[i];
        assert(frames_inside(data@, framing.frames@, HeaderRule::HevcAnyLayer));
        let unit = slice_subrange(data, frame.start, frame.start + frame.len);
        assert(unit@ =~= unit_bytes(data@, frame));
        if let Some(header) = parse_unit_header(unit) {
            headers.push(header);
        }
        i += 1;
        assert(headers@ =~= all.take(i as int));
    }
    assert(headers@ =~= all);
    (headers, framing.fault.is_none())
}

/// The NAL headers of a length-prefixed access unit, up to the first malformed one.
pub fn nal_headers(data: &[u8], length_size: usize) -> (headers: Vec<UnitHeader>)
    ensures
        headers@ == headers_of(data@, length_size as nat),
{
    read_headers(data, length_size).0
}

/// Some header is that of a coded slice, and all those of coded slices pass `test`.
pub open spec fn all_slices(headers: Seq<UnitHeader>, test: spec_fn(UnitHeader) -> bool) -> bool {
    &&& exists|i: int| 0 <= i < headers.len() && is_vcl((#[trigger] headers[i]).unit_type)
    &&& forall|i: int|
        0 <= i < headers.len() && is_vcl((#[trigger] headers[i]).unit_type) ==> test(headers[i])
}

/// Every header is of the base layer.
pub open spec fn base_layer(headers: Seq<UnitHeader>) -> bool {
    forall|i: int| 0 <= i < headers.len() ==> (#[trigger] headers[i]).layer_id == 0
}

/// Whether all slices of an access unit are IRAP slices, and whether all are RASL slices.
pub open spec fn class_of(headers: Seq<UnitHeader>) -> (bool, bool) {
    (
        base_layer(headers) && all_slices(headers, |h: UnitHeader| is_irap(h.unit_type)),
        base_layer(headers) && all_slices(headers, |h: UnitHeader| is_rasl(h.unit_type)),
    )
}

/// What the slices of an access unit are: `(all IRAP, all RASL)`. A malformed one is neither.
pub open spec fn unit_class(data: Seq<u8>, length_size: nat) -> (bool, bool) {
    if well_framed(data, length_size) {
        class_of(headers_of(data, length_size))
    } else {
        (false, false)
    }
}

/// Classifies an access unit by its slices: `(all IRAP, all RASL)`. A malformed access unit,
/// or one that holds a unit of another layer, is neither, so it never becomes a chunk boundary.
pub fn classify(data: &[u8], length_size: usize) -> (class: (bool, bool))
    ensures
        class == unit_class(data@, length_size as nat),
{
    let (headers, framed) = read_headers(data, length_size);
    if !framed {
        return (false, false);
    }
    let mut vcl: bool = false;
    let mut irap: bool = true;
    let mut rasl: bool = true;
    let mut i: usize = 0;
    while i < headers.len()
        invariant
            i <= headers@.len(),
            headers@ == headers_of(data@, length_size as nat),
            base_layer(headers@.take(i as int)),
            vcl <==> exists|k: int| 0 <= k < i && is_vcl((#[trigger] headers@[k]).unit_type),
            irap <==> forall|k: int|
                0 <= k < i && is_vcl((#[trigger] headers@[k]).unit_type) ==> is_irap(
                    headers@[k].unit_type,
                ),
            rasl <==> forall|k: int|
                0 <= k < i && is_vcl((#[trigger] headers@[k]).unit_type) ==> is_rasl(
                    headers@[k].unit_type,
                ),
        decreases headers@.len() - i,
    {
        let header = headers[i];
        let unit_type: u8 = header.unit_type;
        if header.layer_id != 0 {
            assert(headers@[i as int].layer_id != 0);
            return (false, false);
        }
        if unit_type < 32 {
            assert(is_vcl(headers@[i as int].unit_type));
            vcl = true;
            irap = irap && 16 <= unit_type && unit_type <= 23;
            rasl = rasl && (unit_type == 8 || unit_type == 9);
        }
        assert forall|k: int| 0 <= k < i + 1 implies (#[trigger] headers@.take(
            i + 1,
        )[k]).layer_id == 0 by {
            if k < i {
                assert(headers@.take(i as int)[k].layer_id == 0);
            }
        }
        i += 1;
    }
    assert(headers@.take(i as int) =~= headers@);
    (vcl && irap, vcl && rasl)
}

/// An access unit is well formed, holds only slices that nothing refers to in a stream whose
/// highest temporal id is `max_temporal_id`, and beside them nothing that another picture
/// could depend on.
pub open spec fn hevc_disposable(data: Seq<u8>, length_size: nat, max_temporal_id: u8) -> bool {
    let headers = headers_of(data, length_size);
    &&& well_framed(data, length_size)
    &&& base_layer(headers)
    &&& all_slices(
        headers,
        |h: UnitHeader| is_sub_layer_non_ref(h.unit_type) && h.temporal_id == max_temporal_id,
    )
    &&& forall|i: int|
        0 <= i < headers.len() ==> is_vcl((#[trigger] headers[i]).unit_type) || is_hevc_side_unit(
            headers[i].unit_type,
        )
}

/// Whether an access unit can be dropped without changing any other picture.
///
/// A sub-layer non-reference picture is never referenced by pictures of its own sub-layer,
/// and no picture may reference a higher sub-layer, so a sub-layer non-reference picture at
/// the stream's highest `TemporalId` is referenced by nothing. Only SEI, access-unit
/// delimiters and filler may accompany it. Malformed units answer false, leaving normal
/// decoding to report the error.
pub fn disposable_at(data: &[u8], length_size: usize, max_temporal_id: u8) -> (res: bool)
    ensures
        res == hevc_disposable(data@, length_size as nat, max_temporal_id),
{
    let (headers, framed) = read_headers(data, length_size);
    if !framed {
        return false;
    }
    let mut slices: bool = false;
    let mut i: usize = 0;
    while i < headers.len()
        invariant
            i <= headers@.len(),
            headers@ == headers_of(data@, length_size as nat),
            forall|k: int| 0 <= k < i ==> (#[trigger] headers@[k]).layer_id == 0,
            slices <==> exists|k: int| 0 <= k < i && is_vcl((#[trigger] headers@[k]).unit_type),
            forall|k: int|
                0 <= k < i && is_vcl((#[trigger] headers@[k]).unit_type) ==> is_sub_layer_non_ref(
                    headers@[k].unit_type,
                ) && headers@[k].temporal_id == max_temporal_id,
            forall|k: int|
                0 <= k < i ==> is_vcl((#[trigger] headers@[k]).unit_type) || is_hevc_side_unit(
                    headers@[k].unit_type,
                ),
        decreases headers@.len() - i,
    {
        let header = headers[i];
        let unit_type: u8 = header.unit_type;
        assert(header == headers@[i as int]);
        if header.layer_id != 0 {
            return false;
        }
        if unit_type < 32 {
            assert(is_vcl(headers@[i as int].unit_type));
            if unit_type > 14 || unit_type % 2 != 0 || header.temporal_id != max_temporal_id {
                return false;
            }
            slices = true;
        } else if unit_type != 35 && unit_type != 38 && unit_type != 39 && unit_type != 40 {
            return false;
        }
        i += 1;
    }
    slices
}

/// The temporal id at which an access unit could be dropped, if there is one.
pub fn droppable_at(data: &[u8], length_size: usize) -> (at: Option<u8>)
    ensures
        forall|max: u8| #[trigger]
            hevc_disposable(data@, length_size as nat, max) <==> at == Some(max),
{
    let headers = nal_headers(data, length_size);
    let mut i: usize = 0;
    while i < headers.len()
        invariant
            i <= headers@.len(),
            headers@ == headers_of(data@, length_size as nat),
            forall|k: int| 0 <= k < i ==> !is_vcl((#[trigger] headers@[k]).unit_type),
        decreases headers@.len() - i,
    {
        let header = headers[i];
        if header.unit_type < 32 {
            assert(is_vcl(headers@[i as int].unit_type));
            if disposable_at(data, length_size, header.temporal_id) {
                return Some(header.temporal_id);
            }
            return None;
        }
        i += 1;
    }
    None
}

/// An access unit of IRAP slices is never left undecoded as one that nothing refers to.
pub proof fn law_irap_is_never_disposable(data: Seq<u8>, length_size: nat, max_temporal_id: u8)
    requires
        unit_class(data, length_size).0,
    ensures
        !hevc_disposable(data, length_size, max_temporal_id),
{
    let headers = headers_of(data, length_size);
    let i = choose|i: int| 0 <= i < headers.len() && is_vcl((#[trigger] headers[i]).unit_type);
    assert(is_irap(headers[i].unit_type));
    assert(!is_sub_layer_non_ref(headers[i].unit_type));
}

/// A chunk's access units lie inside the clip.
pub proof fn lemma_hevc_chunk_inside(
    pts: Seq<i64>,
    irap: Seq<bool>,
    rasl: Seq<bool>,
    target_ms: u64,
    c: int,
)
    requires
        0 < pts.len() <= usize::MAX,
        0 <= c < hevc_chunks(pts, irap, rasl, target_ms).len(),
    ensures
        ({
            let chunk = hevc_chunks(pts, irap, rasl, target_ms)[c];
            &&& chunk.head < pts.len()
            &&& chunk.head < chunk.tail.start <= chunk.tail.end <= pts.len()
        }),
{
    lemma_hevc_starts(pts, irap, rasl, target_ms, pts.len());
    let starts = hevc_starts(pts, irap, rasl, target_ms, pts.len());
    let n = pts.len() as int;
    assert(starts[c] < n) by {
        if c > 0 {
            assert(starts[c] < pts.len());
        }
    }
    lemma_rasl_run_end(rasl, starts[c] + 1, n);
    if c + 1 < starts.len() {
        assert(starts[c + 1] < n);
        lemma_rasl_run_end(rasl, starts[c + 1] + 1, n);
    }
}

proof fn lemma_rasl_run_end(rasl: Seq<bool>, from: int, n: int)
    requires
        from <= n,
    ensures
        from <= rasl_run_end(rasl, from, n) <= n,
    decreases n - from,
{
    if from < n && rasl[from] {
        lemma_rasl_run_end(rasl, from + 1, n);
    }
}

proof fn lemma_base_layer_frames(data: Seq<u8>, pos: int, size: nat)
    requires
        fault_from(data, pos, size, HeaderRule::HevcAnyLayer) is None,
        forall|i: int|
            #![trigger frames_from(data, pos, size, HeaderRule::HevcAnyLayer)[i]]
            0 <= i < frames_from(data, pos, size, HeaderRule::HevcAnyLayer).len() ==> unit_header(
                unit_bytes(data, frames_from(data, pos, size, HeaderRule::HevcAnyLayer)[i]),
            )->Some_0.layer_id == 0,
    ensures
        fault_from(data, pos, size, HeaderRule::HevcBaseLayer) is None,
    decreases data.len() - pos,
{
    let all = frames_from(data, pos, size, HeaderRule::HevcAnyLayer);
    if pos < 0 || pos >= data.len() || data.len() > usize::MAX {
    } else {
        let frame = crate::nal::frame_at(data, pos, size, HeaderRule::HevcAnyLayer)->Ok_0;
        let next = frame.start + frame.len;
        let rest = frames_from(data, next, size, HeaderRule::HevcAnyLayer);
        assert(all =~= seq![frame] + rest);
        assert(all[0] == frame);
        let unit = unit_bytes(data, frame);
        let b0 = unit[0];
        let b1 = unit[1];
        assert(unit_header(unit)->Some_0.layer_id == 0);
        assert(((b0 & 1) << 5) | (b1 >> 3) == 0 ==> b0 & 1 == 0 && b1 >> 3 == 0) by (bit_vector);
        assert forall|i: int| 0 <= i < rest.len() implies unit_header(
            unit_bytes(data, #[trigger] rest[i]),
        )->Some_0.layer_id == 0 by {
            assert(all[i + 1] == rest[i]);
        }
        lemma_base_layer_frames(data, next, size);
    }
}

/// Only well-formed access units are ever left undecoded as ones that nothing refers to, so
/// that what is wrong with a malformed one is reported as if every unit were decoded.
pub proof fn law_skipped_unit_is_well_formed(data: Seq<u8>, length_size: nat, max_temporal_id: u8)
    requires
        hevc_disposable(data, length_size, max_temporal_id),
    ensures
        annexb_of(data, length_size, HeaderRule::HevcBaseLayer) is Ok,
{
    let headers = headers_of(data, length_size);
    let frames = frames_from(data, 0, length_size, HeaderRule::HevcAnyLayer);
    let i = choose|i: int| 0 <= i < headers.len() && is_vcl((#[trigger] headers[i]).unit_type);
    assert(frames.len() > 0);
    assert forall|k: int| 0 <= k < frames.len() implies unit_header(
        unit_bytes(data, #[trigger] frames[k]),
    )->Some_0.layer_id == 0 by {
        assert(headers[k].layer_id == 0);
    }
    lemma_base_layer_frames(data, 0, length_size);
}

/// What the two bytes of an H.265 NAL unit header stand for: the type in the six bits after
/// the highest, the layer in the next six, and one more than the temporal id in the last
/// three.
pub proof fn law_header_bytes(unit: Seq<u8>)
    requires
        unit.len() > 0,
    ensures
        unit_header(unit) is Some <==> unit.len() >= 2 && unit[0] < 128 && unit[1] % 8 != 0,
        unit_header(unit) matches Some(header) ==> {
            &&& header.unit_type == unit[0] as int / 2
            &&& header.layer_id == (unit[0] as int % 2) * 32 + unit[1] as int / 8
            &&& header.temporal_id == unit[1] as int % 8 - 1
        },
{
    let a = unit[0];
    assert((a & 0x80 == 0) == (a < 128) && (a < 128 ==> (a >> 1) & 0x3f == a / 2)) by (bit_vector);
    if unit.len() >= 2 {
        let b = unit[1];
        assert(b & 7 == b % 8 && ((a & 1) << 5) | (b >> 3) == (a % 2) * 32 + b / 8)
            by (bit_vector);
    }
}

/// NAL units with valid H.265 headers, that a length of `size` bytes can store.
pub open spec fn valid_units(units: Seq<Seq<u8>>, size: nat) -> bool {
    &&& 1 <= size <= 4
    &&& length_prefixed(units, size).len() <= usize::MAX
    &&& forall|i: int|
        #![trigger units[i]]
        0 <= i < units.len() ==> {
            &&& 2 <= units[i].len() < prefix_limit(size)
            &&& units[i][0] < 128
            &&& units[i][1] % 8 != 0
        }
}

proof fn lemma_stored_headers(units: Seq<Seq<u8>>, size: nat)
    requires
        valid_units(units, size),
    ensures
        ({
            let data = length_prefixed(units, size);
            let headers = headers_of(data, size);
            &&& well_framed(data, size)
            &&& headers.len() == units.len()
            &&& forall|i: int|
                0 <= i < units.len() ==> {
                    &&& (#[trigger] headers[i]).unit_type == units[i][0] as int / 2
                    &&& headers[i].layer_id == (units[i][0] as int % 2) * 32 + units[i][1] as int
                        / 8
                    &&& headers[i].temporal_id == units[i][1] as int % 8 - 1
                }
        }),
{
    let data = length_prefixed(units, size);
    let headers = headers_of(data, size);
    let frames = frames_from(data, 0, size, HeaderRule::HevcAnyLayer);
    assert forall|i: int| 0 <= i < units.len() implies {
        &&& 0 < #[trigger] units[i].len() < prefix_limit(size)
        &&& crate::nal::header_fault(units[i], HeaderRule::HevcAnyLayer) is None
    } by {
        law_header_rules(units[i]);
    }
    law_stored_units_are_found(units, size, HeaderRule::HevcAnyLayer);
    assert forall|i: int| 0 <= i < units.len() implies {
        &&& (#[trigger] headers[i]).unit_type == units[i][0] as int / 2
        &&& headers[i].layer_id == (units[i][0] as int % 2) * 32 + units[i][1] as int / 8
        &&& headers[i].temporal_id == units[i][1] as int % 8 - 1
    } by {
        assert(unit_bytes(data, frames[i]) == units[i]);
        law_header_bytes(units[i]);
    }
}

/// The headers that are read in an access unit are those of its units, in order.
pub proof fn law_headers_of_stored_units(units: Seq<Seq<u8>>, size: nat, i: int)
    requires
        valid_units(units, size),
        0 <= i < units.len(),
    ensures
        ({
            let headers = headers_of(length_prefixed(units, size), size);
            &&& headers.len() == units.len()
            &&& headers[i].unit_type == units[i][0] as int / 2
            &&& headers[i].layer_id == (units[i][0] as int % 2) * 32 + units[i][1] as int / 8
            &&& headers[i].temporal_id == units[i][1] as int % 8 - 1
        }),
{
    lemma_stored_headers(units, size);
    assert(headers_of(length_prefixed(units, size), size)[i].unit_type == units[i][0] as int / 2);
}

/// An access unit can be dropped at the highest temporal id `max` exactly where it holds a
/// slice, every unit is of the base layer, every slice is of a sub-layer non-reference type,
/// one of the even types up to fourteen, at temporal id `max`, and what stands beside the
/// slices is supplemental information, a delimiter or filler. A slice of an odd type, to which
/// other pictures of its sub-layer may refer, keeps its access unit at every temporal id.
pub proof fn law_dropped_slices_are_non_reference(units: Seq<Seq<u8>>, size: nat, max: u8)
    requires
        valid_units(units, size),
    ensures
        hevc_disposable(length_prefixed(units, size), size, max) <==> {
            &&& exists|i: int| 0 <= i < units.len() && (#[trigger] units[i])[0] as int / 2 < 32
            &&& forall|i: int|
                #![trigger units[i]]
                0 <= i < units.len() ==> {
                    let kind = units[i][0] as int / 2;
                    &&& units[i][0] % 2 == 0 && units[i][1] < 8
                    &&& kind < 32 ==> (kind == 0 || kind == 2 || kind == 4 || kind == 6 || kind
                        == 8 || kind == 10 || kind == 12 || kind == 14) && units[i][1] == max + 1
                    &&& kind >= 32 ==> kind == 35 || kind == 38 || kind == 39 || kind == 40
                }
        },
        forall|i: int|
            0 <= i < units.len() && (#[trigger] units[i])[0] as int / 2 < 32 && (units[i][0] as int
                / 2) % 2 == 1 ==> !hevc_disposable(length_prefixed(units, size), size, max),
{
    let data = length_prefixed(units, size);
    let headers = headers_of(data, size);
    lemma_stored_headers(units, size);
    assert forall|i: int| 0 <= i < units.len() implies {
        &&& (is_vcl(headers[i].unit_type) <==> (#[trigger] units[i])[0] as int / 2 < 32)
        &&& (headers[i].layer_id == 0 <==> units[i][0] % 2 == 0 && units[i][1] < 8)
        &&& headers[i].unit_type == units[i][0] as int / 2
        &&& headers[i].temporal_id == units[i][1] as int % 8 - 1
    } by {
        assert(headers[i].unit_type == units[i][0] as int / 2);
    }
    let test = |h: UnitHeader| is_sub_layer_non_ref(h.unit_type) && h.temporal_id == max;
    if hevc_disposable(data, size, max) {
        let s = choose|s: int| 0 <= s < headers.len() && is_vcl((#[trigger] headers[s]).unit_type);
        assert(units[s][0] as int / 2 < 32);
        assert forall|i: int| #![trigger units[i]] 0 <= i < units.len() implies {
            let kind = units[i][0] as int / 2;
            &&& units[i][0] % 2 == 0 && units[i][1] < 8
            &&& kind < 32 ==> (kind == 0 || kind == 2 || kind == 4 || kind == 6 || kind == 8
                || kind == 10 || kind == 12 || kind == 14) && units[i][1] == max + 1
            &&& kind >= 32 ==> kind == 35 || kind == 38 || kind == 39 || kind == 40
        } by {
            assert(headers[i].layer_id == 0);
            if is_vcl(headers[i].unit_type) {
                assert(test(headers[i]));
            }
        }
    } else if exists|i: int| 0 <= i < units.len() && (#[trigger] units[i])[0] as int / 2 < 32 {
        let s = choose|i: int| 0 <= i < units.len() && (#[trigger] units[i])[0] as int / 2 < 32;
        assert(is_vcl(headers[s].unit_type));
        if forall|i: int|
            #![trigger units[i]]
            0 <= i < units.len() ==> {
                let kind = units[i][0] as int / 2;
                &&& units[i][0] % 2 == 0 && units[i][1] < 8
                &&& kind < 32 ==> (kind == 0 || kind == 2 || kind == 4 || kind == 6 || kind == 8
                    || kind == 10 || kind == 12 || kind == 14) && units[i][1] == max + 1
                &&& kind >= 32 ==> kind == 35 || kind == 38 || kind == 39 || kind == 40
            } {
            assert forall|i: int| 0 <= i < headers.len() implies (#[trigger] headers[i]).layer_id
                == 0 && (is_vcl(headers[i].unit_type) ==> test(headers[i])) && (is_vcl(
                headers[i].unit_type,
            ) || is_hevc_side_unit(headers[i].unit_type)) by {
                assert(units[i][0] % 2 == 0 && units[i][1] < 8);
            }
        }
    }
}

/// An access unit can start a chunk exactly where it holds a slice, every unit is of the base
/// layer, and the types of all its slices are from 16 to 23; it is a RASL picture exactly where
/// they are 8 or 9.
pub proof fn law_class_by_slice_types(units: Seq<Seq<u8>>, size: nat)
    requires
        valid_units(units, size),
    ensures
        ({
            let class = unit_class(length_prefixed(units, size), size);
            let base = forall|i: int|
                0 <= i < units.len() ==> (#[trigger] units[i])[0] % 2 == 0 && units[i][1] < 8;
            let some = exists|i: int|
                0 <= i < units.len() && (#[trigger] units[i])[0] as int / 2 < 32;
            &&& class.0 <==> base && some && forall|i: int|
                0 <= i < units.len() && (#[trigger] units[i])[0] as int / 2 < 32 ==> 16
                    <= units[i][0] as int / 2 && units[i][0] as int / 2 <= 23
            &&& class.1 <==> base && some && forall|i: int|
                0 <= i < units.len() && (#[trigger] units[i])[0] as int / 2 < 32 ==> units[i][0]
                    as int / 2 == 8 || units[i][0] as int / 2 == 9
        }),
{
    let data = length_prefixed(units, size);
    let headers = headers_of(data, size);
    lemma_stored_headers(units, size);
    assert forall|i: int| 0 <= i < units.len() implies {
        &&& (is_vcl(headers[i].unit_type) <==> (#[trigger] units[i])[0] as int / 2 < 32)
        &&& (headers[i].layer_id == 0 <==> units[i][0] % 2 == 0 && units[i][1] < 8)
        &&& headers[i].unit_type == units[i][0] as int / 2
    } by {
        assert(headers[i].unit_type == units[i][0] as int / 2);
    }
    assert forall|i: int| 0 <= i < headers.len() implies {
        &&& (is_vcl((#[trigger] headers[i]).unit_type) <==> units[i][0] as int / 2 < 32)
        &&& (headers[i].layer_id == 0 <==> units[i][0] % 2 == 0 && units[i][1] < 8)
        &&& headers[i].unit_type == units[i][0] as int / 2
    } by {
        assert(units[i][0] as int / 2 == headers[i].unit_type);
    }
    assert(base_layer(headers) <==> forall|i: int|
        0 <= i < units.len() ==> (#[trigger] units[i])[0] % 2 == 0 && units[i][1] < 8);
    if exists|i: int| 0 <= i < units.len() && (#[trigger] units[i])[0] as int / 2 < 32 {
        let s = choose|i: int| 0 <= i < units.len() && (#[trigger] units[i])[0] as int / 2 < 32;
        assert(is_vcl(headers[s].unit_type));
    }
}

/// An access unit that is not a clean run of such units is neither dropped nor a chunk
/// boundary nor a RASL picture: whatever is, holds its units and nothing else.
pub proof fn law_only_clean_access_units_count(data: Seq<u8>, size: nat, max: u8)
    requires
        data.len() <= usize::MAX,
        hevc_disposable(data, size, max) || unit_class(data, size).0 || unit_class(data, size).1,
    ensures
        exists|units: Seq<Seq<u8>>| #[trigger]
            valid_units(units, size) && data == length_prefixed(units, size),
{
    let units = units_of(data, frames_from(data, 0, size, HeaderRule::HevcAnyLayer));
    law_framed_data_is_stored_units(data, size, HeaderRule::HevcAnyLayer);
    assert forall|i: int| #![trigger units[i]] 0 <= i < units.len() implies {
        &&& 2 <= units[i].len() < prefix_limit(size)
        &&& units[i][0] < 128
        &&& units[i][1] % 8 != 0
    } by {
        law_header_rules(units[i]);
    }
    assert(valid_units(units, size));
}

/// A RASL run is RASL pictures all through, and stops before one that is none.
pub proof fn lemma_rasl_run(rasl: Seq<bool>, from: int, n: int)
    requires
        from <= n,
    ensures
        forall|i: int| from <= i < rasl_run_end(rasl, from, n) ==> #[trigger] rasl[i],
        rasl_run_end(rasl, from, n) < n ==> !rasl[rasl_run_end(rasl, from, n)],
        from <= rasl_run_end(rasl, from, n) <= n,
    decreases n - from,
{
    if from < n && rasl[from] {
        lemma_rasl_run(rasl, from + 1, n);
    }
}

/// The starts are taken as early as they may be: between two of them no IRAP picture is far
/// enough from the first.
proof fn lemma_starts_are_early(
    pts: Seq<i64>,
    irap: Seq<bool>,
    rasl: Seq<bool>,
    target_ms: u64,
    count: nat,
    c: int,
    k: int,
)
    requires
        1 <= count <= pts.len() <= usize::MAX,
        0 <= c < hevc_starts(pts, irap, rasl, target_ms, count).len(),
        hevc_starts(pts, irap, rasl, target_ms, count)[c] < k < count,
        c + 1 < hevc_starts(pts, irap, rasl, target_ms, count).len() ==> k < hevc_starts(
            pts,
            irap,
            rasl,
            target_ms,
            count,
        )[c + 1],
        irap[k],
        !rasl[k],
    ensures
        clamp_i64(pts[k] - pts[hevc_starts(pts, irap, rasl, target_ms, count)[c] as int])
            < target_ms as i64,
    decreases count,
{
    let starts = hevc_starts(pts, irap, rasl, target_ms, count);
    let earlier = hevc_starts(pts, irap, rasl, target_ms, (count - 1) as nat);
    lemma_hevc_starts(pts, irap, rasl, target_ms, count);
    lemma_hevc_starts(pts, irap, rasl, target_ms, (count - 1) as nat);
    if k < count - 1 {
        if c < earlier.len() {
            assert(starts[c] == earlier[c]);
            if c + 1 < earlier.len() {
                assert(starts[c + 1] == earlier[c + 1]);
            }
            lemma_starts_are_early(pts, irap, rasl, target_ms, (count - 1) as nat, c, k);
        } else {
            assert(starts[c] == count - 1);
        }
    } else {
        if starts.len() > earlier.len() {
            assert(starts[starts.len() - 1] == k);
            assert(c == starts.len() - 1 || c + 1 == starts.len() - 1 || c + 1 < starts.len() - 1);
            if c + 1 < starts.len() - 1 {
                lemma_starts_ascend(starts, c + 1, starts.len() - 1, count);
            }
        } else {
            assert(starts == earlier);
            if c < starts.len() - 1 {
                assert(starts[c + 1] < count - 1);
            }
        }
    }
}

proof fn lemma_starts_ascend(starts: Seq<usize>, a: int, b: int, count: nat)
    requires
        0 <= a < b < starts.len(),
        forall|i: int| 0 < i < starts.len() ==> starts[i - 1] < #[trigger] starts[i] < count,
    ensures
        starts[a] < starts[b],
    decreases b - a,
{
    assert(starts[b - 1] < starts[b]);
    if a < b - 1 {
        lemma_starts_ascend(starts, a, b - 1, count);
    }
}

/// The first chunk starts with the clip, every other one at an IRAP picture that is no RASL
/// picture and presents at least `target_ms` after the start of the chunk before it, and no
/// such picture is passed over. A chunk owns the times from its own start to that of the next
/// chunk. It decodes its start, leaves out the RASL run right after it, and goes on through the
/// next chunk's start and the RASL run after that, or to the end of the clip.
pub proof fn law_hevc_chunk_shape(
    pts: Seq<i64>,
    irap: Seq<bool>,
    rasl: Seq<bool>,
    target_ms: u64,
    c: int,
    k: int,
)
    requires
        0 < pts.len() <= usize::MAX,
        target_ms <= i64::MAX,
        0 <= c < hevc_chunks(pts, irap, rasl, target_ms).len(),
    ensures
        ({
            let chunks = hevc_chunks(pts, irap, rasl, target_ms);
            let chunk = chunks[c];
            let head = chunk.head as int;
            let next = chunks[c + 1].head as int;
            let n = pts.len();
            &&& chunks[0].head == 0
            &&& 0 <= head && head < n
            &&& c > 0 ==> irap[head] && !rasl[head] && pts[head] - pts[chunks[c - 1].head as int]
                >= target_ms
            &&& c + 1 < chunks.len() ==> head < next && next < n && chunk.present.1 == pts[next]
            &&& c + 1 == chunks.len() ==> chunk.present.1 == i64::MAX
            &&& chunk.present.0 == pts[head]
            &&& head < k && k < n && (c + 1 < chunks.len() ==> k < next) && irap[k] && !rasl[k]
                ==> pts[k] - pts[head] < target_ms
            // What the chunk decodes.
            &&& head < chunk.tail.start && chunk.tail.start <= chunk.tail.end && chunk.tail.end
                <= n
            &&& head < k && k < chunk.tail.start ==> rasl[k]
            &&& chunk.tail.start < n ==> !rasl[chunk.tail.start as int]
            &&& c + 1 == chunks.len() ==> chunk.tail.end == n
            &&& c + 1 < chunks.len() ==> next < chunk.tail.end
            &&& c + 1 < chunks.len() && next < k && k < chunk.tail.end ==> rasl[k]
            &&& chunk.tail.end < n ==> !rasl[chunk.tail.end as int]
        }),
{
    let chunks = hevc_chunks(pts, irap, rasl, target_ms);
    let starts = hevc_starts(pts, irap, rasl, target_ms, pts.len());
    let n = pts.len() as int;
    lemma_hevc_starts(pts, irap, rasl, target_ms, pts.len());
    let head = starts[c] as int;
    assert(head < n) by {
        if c > 0 {
            assert(starts[c] < n);
        }
    }
    lemma_rasl_run(rasl, head + 1, n);
    if c + 1 < starts.len() {
        let next = starts[c + 1] as int;
        assert(starts[c] < starts[c + 1] < n);
        assert(!rasl[next]);
        lemma_rasl_run(rasl, next + 1, n);
        let tail_start = rasl_run_end(rasl, head + 1, n);
        if tail_start > next {
            assert(rasl[next]);
        }
    }
    if head < k && k < n && (c + 1 < chunks.len() ==> k < starts[c + 1]) && irap[k] && !rasl[k] {
        lemma_starts_are_early(pts, irap, rasl, target_ms, pts.len(), c, k);
    }
}

/// Chunks partition the pictures exactly where every interval but the last ends after it starts,
/// and every kept picture is in the interval of a chunk that decodes it.
pub proof fn law_partition_of_pictures(
    chunks: Seq<HevcChunk>,
    pts: Seq<i64>,
    keep: spec_fn(i64) -> bool,
)
    ensures
        partitions_pictures(chunks, pts, keep) <==> {
            &&& forall|c: int|
                0 <= c && c + 1 < chunks.len() ==> (#[trigger] chunks[c]).present.0
                    < chunks[c].present.1
            &&& forall|i: int|
                0 <= i < pts.len() && keep(#[trigger] pts[i]) ==> exists|c: int|
                    #![trigger chunks[c]]
                    0 <= c < chunks.len() && chunks[c].present.0 <= pts[i] && pts[i]
                        < chunks[c].present.1 && (chunks[c].head == i || (chunks[c].tail.start <= i
                        && i < chunks[c].tail.end))
        },
{
    assert forall|i: int| 0 <= i < pts.len() implies decoded_by_owner(chunks, pts, i) == (exists|
        c: int,
    |
        #![trigger chunks[c]]
        0 <= c < chunks.len() && chunks[c].present.0 <= (#[trigger] pts[i]) && pts[i]
            < chunks[c].present.1 && (chunks[c].head == i || (chunks[c].tail.start <= i && i
            < chunks[c].tail.end))) by {
        if decoded_by_owner(chunks, pts, i) {
            let c = choose|c: int|
                0 <= c < chunks.len() && owns(#[trigger] chunks[c], pts[i]) && decodes(
                    chunks[c],
                    i,
                );
            assert(chunks[c].present.0 <= pts[i]);
        }
    }
}

} // verus!
