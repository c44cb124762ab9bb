use vstd::prelude::*;
use crate::codec::{decode_at, lemma_parse_advances, parse, Command, CommandView, CorruptRecord};
use crate::engine::{lemma_published, moves_view, published, Move, StoreError};
use crate::index::CommandPos;
use crate::replay::{apply_record, ascending, lemma_parse_prefix, load, replay_from, replay_segments};

verus! {

/// The view of the segments handed to replay or compaction.
pub open spec fn segs_view(segments: Seq<(u64, Vec<u8>)>) -> Seq<(u64, Seq<u8>)> {
    segments.map_values(|s: (u64, Vec<u8>)| (s.0, s.1@))
}

/// Every segment's length is a valid offset.
pub open spec fn offsets_fit(segs: Seq<(u64, Seq<u8>)>) -> bool {
    forall|j: int| 0 <= j < segs.len() ==> #[trigger] segs[j].1.len() <= u64::MAX
}

/// `p` points, inside segment `j`, at a whole `Put` record of key `k`.
pub open spec fn put_at(segs: Seq<(u64, Seq<u8>)>, j: int, k: Seq<u8>, p: CommandPos) -> bool {
    &&& 0 <= j < segs.len()
    &&& segs[j].0 == p.generation
    &&& p.pos + p.len <= segs[j].1.len()
    &&& parse(segs[j].1.subrange(p.pos as int, segs[j].1.len() as int)) matches Some((c, n)) && c
        is Put && c.key() == k && n == p.len
}

/// Every location in `m` points at a `Put` of its key in one of `segs`.
pub open spec fn locations_valid(segs: Seq<(u64, Seq<u8>)>, m: Map<Seq<u8>, CommandPos>) -> bool {
    forall|k: Seq<u8>| #[trigger] m.contains_key(k) ==> exists|j: int| put_at(segs, j, k, m[k])
}

proof fn lemma_replay_from_valid(
    segs: Seq<(u64, Seq<u8>)>,
    j: int,
    m: Map<Seq<u8>, CommandPos>,
    off: nat,
)
    requires
        0 <= j < segs.len(),
        segs[j].1.len() <= u64::MAX,
        off <= segs[j].1.len(),
        locations_valid(segs, m),
        replay_from(m, segs[j].0, segs[j].1, off) is Some,
    ensures
        locations_valid(segs, replay_from(m, segs[j].0, segs[j].1, off)->0),
    decreases segs[j].1.len() - off,
{
    let s = segs[j].1;
    let g = segs[j].0;
    if off < s.len() {
        let x = s.subrange(off as int, s.len() as int);
        let (c, n) = parse(x)->0;
        lemma_parse_advances(x);
        let m2 = apply_record(m, c, g, off, n);
        assert(locations_valid(segs, m2)) by {
            assert forall|k: Seq<u8>| #[trigger] m2.contains_key(k) implies exists|i: int|
                put_at(segs, i, k, m2[k]) by {
                match c {
                    CommandView::Put { key, .. } => {
                        if k == key {
                            assert(put_at(segs, j, k, m2[k]));
                        } else {
                            assert(m.contains_key(k));
                            let i = choose|i: int| put_at(segs, i, k, m[k]);
                            assert(put_at(segs, i, k, m2[k]));
                        }
                    },
                    CommandView::Remove { key } => {
                        assert(m.contains_key(k));
                        let i = choose|i: int| put_at(segs, i, k, m[k]);
                        assert(put_at(segs, i, k, m2[k]));
                    },
                }
            }
        }
        lemma_replay_from_valid(segs, j, m2, off + n);
    }
}

pub(crate) proof fn lemma_replay_segments_valid(segs: Seq<(u64, Seq<u8>)>, n: int)
    requires
        0 <= n <= segs.len(),
        offsets_fit(segs),
        replay_segments(Map::empty(), segs.subrange(0, n)) is Some,
    ensures
        locations_valid(segs, replay_segments(Map::empty(), segs.subrange(0, n))->0),
    decreases n,
{
    if n > 0 {
        let pre = segs.subrange(0, n);
        assert(pre.drop_last() =~= segs.subrange(0, n - 1));
        lemma_replay_segments_valid(segs, n - 1);
        let m = replay_segments(Map::empty(), segs.subrange(0, n - 1))->0;
        lemma_replay_from_valid(segs, n - 1, m, 0);
    }
}

/// The bytes at `to` in `out` are a copy of those at `from`, where segment `j` of
/// `segs` holds a whole `Put` record of key `k`.
#[verifier::opaque]
pub open spec fn copied(
    segs: Seq<(u64, Seq<u8>)>,
    out: Seq<u8>,
    k: Seq<u8>,
    from: CommandPos,
    to: CommandPos,
) -> bool {
    exists|j: int|
        put_at(segs, j, k, from) && to.pos + to.len <= out.len() && out.subrange(
            to.pos as int,
            to.pos + to.len,
        ) == segs[j].1.subrange(from.pos as int, from.pos + from.len)
}

proof fn lemma_copied_extend(
    segs: Seq<(u64, Seq<u8>)>,
    out: Seq<u8>,
    out2: Seq<u8>,
    k: Seq<u8>,
    from: CommandPos,
    to: CommandPos,
)
    requires
        copied(segs, out, k, from, to),
        out.len() <= out2.len(),
        out2.subrange(0, out.len() as int) == out,
    ensures
        copied(segs, out2, k, from, to),
{
    reveal(copied);
    let j = choose|j: int|
        put_at(segs, j, k, from) && to.pos + to.len <= out.len() && out.subrange(
            to.pos as int,
            to.pos + to.len,
        ) == segs[j].1.subrange(from.pos as int, from.pos + from.len);
    assert(out2.subrange(to.pos as int, to.pos + to.len) =~= out.subrange(
        to.pos as int,
        to.pos + to.len,
    ));
}

/// The new locations of moved keys, later moves winning.
pub open spec fn moves_map(moves: Seq<Move>) -> Map<Seq<u8>, CommandPos>
    decreases moves.len(),
{
    if moves.len() == 0 {
        Map::empty()
    } else {
        moves_map(moves.drop_last()).insert(moves.last().0@, moves.last().2)
    }
}

proof fn lemma_parse_truncate(x: Seq<u8>)
    ensures
        parse(x) matches Some((_, n)) ==> parse(x.subrange(0, n as int)) == parse(x),
{
    if parse(x) is None {
        return;
    }
    let (_, nn) = parse(x)->0;
    let n = nn as int;
    lemma_parse_advances(x);
    let t = x.subrange(0, n);
    assert(t.subrange(1, 9) =~= x.subrange(1, 9));
    let kend = 9 + crate::codec::read_le64(x.subrange(1, 9)) as int;
    if kend <= n {
        assert(t.subrange(9, kend) =~= x.subrange(9, kend));
    }
    if kend + 8 <= n {
        assert(t.subrange(kend, kend + 8) =~= x.subrange(kend, kend + 8));
        let vend = kend + 8 + crate::codec::read_le64(x.subrange(kend, kend + 8)) as int;
        if vend <= n {
            assert(t.subrange(kend + 8, vend) =~= x.subrange(kend + 8, vend));
        }
    }
}

proof fn lemma_region_parses(
    segs: Seq<(u64, Seq<u8>)>,
    out: Seq<u8>,
    k: Seq<u8>,
    from: CommandPos,
    to: CommandPos,
)
    requires
        copied(segs, out, k, from, to),
        to.len == from.len,
    ensures
        to.pos + to.len <= out.len(),
        parse(out.subrange(to.pos as int, out.len() as int)) matches Some((c, n)) && c is Put
            && c.key() == k && n == to.len && n >= 5,
{
    reveal(copied);
    let j = choose|j: int|
        put_at(segs, j, k, from) && to.pos + to.len <= out.len() && out.subrange(
            to.pos as int,
            to.pos + to.len,
        ) == segs[j].1.subrange(from.pos as int, from.pos + from.len);
    let seg = segs[j].1;
    let x = seg.subrange(from.pos as int, seg.len() as int);
    lemma_parse_truncate(x);
    lemma_parse_advances(x);
    assert(x.subrange(0, from.len as int) =~= seg.subrange(from.pos as int, from.pos + from.len));
    let r = out.subrange(to.pos as int, to.pos + to.len);
    let rest = out.subrange(to.pos + to.len, out.len() as int);
    lemma_parse_prefix(r, rest);
    assert(out.subrange(to.pos as int, out.len() as int) =~= r + rest);
}

proof fn lemma_replay_step(
    m: Map<Seq<u8>, CommandPos>,
    generation: u64,
    out: Seq<u8>,
    off: nat,
    c: CommandView,
    n: nat,
)
    requires
        off < out.len(),
        n > 0,
        parse(out.subrange(off as int, out.len() as int)) == Some((c, n)),
    ensures
        replay_from(m, generation, out, off) == replay_from(
            apply_record(m, c, generation, off, n),
            generation,
            out,
            off + n,
        ),
{
}

#[verifier::rlimit(100)]
proof fn lemma_out_replays(out: Seq<u8>, moves: Seq<Move>, target: u64, i: int)
    requires
        0 <= i <= moves.len(),
        packed(moves, out.len()),
        forall|a: int|
            0 <= a < moves.len() ==> {
                let (k, from, to) = #[trigger] moves[a];
                &&& to.generation == target
                &&& to.pos + to.len <= out.len()
                &&& parse(out.subrange(to.pos as int, out.len() as int)) matches Some((c, n))
                    && c is Put && c.key() == k@ && n == to.len && n >= 5
            },
    ensures
        replay_from(
            moves_map(moves.subrange(0, i)),
            target,
            out,
            if i < moves.len() {
                moves[i].2.pos as nat
            } else {
                out.len()
            },
        ) == Some(moves_map(moves)),
    decreases moves.len() - i,
{
    if i == moves.len() {
        assert(moves.subrange(0, i) =~= moves);
    } else {
        let to = moves[i].2;
        let m0 = moves_map(moves.subrange(0, i));
        assert(moves.subrange(0, i + 1).drop_last() =~= moves.subrange(0, i));
        let (c, n) = parse(out.subrange(to.pos as int, out.len() as int))->0;
        lemma_replay_step(m0, target, out, to.pos as nat, c, n);
        assert(apply_record(m0, c, target, to.pos as nat, n) == moves_map(
            moves.subrange(0, i + 1),
        ));
        lemma_out_replays(out, moves, target, i + 1);
    }
}

/// Replayed on its own, a compacted segment gives exactly the moved keys at their
/// new locations: after a restart it rebuilds what publishing the compaction did.
pub proof fn lemma_compacted_segment_replays(
    segs: Seq<(u64, Seq<u8>)>,
    out: Seq<u8>,
    moves: Seq<Move>,
    target: u64,
)
    requires
        packed(moves, out.len()),
        forall|a: int|
            0 <= a < moves.len() ==> {
                let (k, from, to) = #[trigger] moves[a];
                &&& to.generation == target
                &&& to.len == from.len
                &&& copied(segs, out, k@, from, to)
            },
    ensures
        replay_from(Map::empty(), target, out, 0) == Some(moves_map(moves)),
{
    assert forall|a: int| 0 <= a < moves.len() implies {
        let (k, from, to) = #[trigger] moves[a];
        &&& to.pos + to.len <= out.len()
        &&& parse(out.subrange(to.pos as int, out.len() as int)) matches Some((c, n)) && c is Put
            && c.key() == k@ && n == to.len && n >= 5
    } by {
        lemma_region_parses(segs, out, moves[a].0@, moves[a].1, moves[a].2);
    }
    assert(moves.subrange(0, 0) =~= Seq::<Move>::empty());
    lemma_out_replays(out, moves, target, 0);
}

/// Publishing a compaction keeps every live record as it was: each key keeps its
/// location, or moves from exactly its current location to a byte-for-byte copy
/// of that record in the compacted segment. No key is added or lost.
pub proof fn lemma_publish_keeps_records(
    m: Map<Seq<u8>, CommandPos>,
    segs: Seq<(u64, Seq<u8>)>,
    out: Seq<u8>,
    moves: Seq<Move>,
)
    requires
        forall|i: int, j: int| 0 <= i < j < moves.len() ==> moves[i].0@ != moves[j].0@,
        forall|a: int|
            0 <= a < moves.len() ==> copied(
                segs,
                out,
                (#[trigger] moves[a]).0@,
                moves[a].1,
                moves[a].2,
            ),
    ensures
        published(m, moves_view(moves)).dom() == m.dom(),
        forall|k: Seq<u8>|
            #[trigger] m.contains_key(k) ==> {
                let p = published(m, moves_view(moves))[k];
                ||| p == m[k]
                ||| copied(segs, out, k, m[k], p)
            },
{
    let mv = moves_view(moves);
    assert forall|i: int, j: int| 0 <= i < j < mv.len() implies mv[i].0 != mv[j].0 by {}
    lemma_published(m, mv);
    assert forall|k: Seq<u8>| #[trigger] m.contains_key(k) implies {
        let p = published(m, mv)[k];
        ||| p == m[k]
        ||| copied(segs, out, k, m[k], p)
    } by {
        let p = published(m, mv)[k];
        if p != m[k] {
            let i = choose|i: int|
                0 <= i < mv.len() && mv[i].0 == k && mv[i].1 == m[k] && published(m, mv)[k]
                    == mv[i].2;
            assert(moves[i].0@ == k && moves[i].1 == m[k] && moves[i].2 == p);
        }
    }
}

/// The moved records lie back to back from offset 0 and fill `total` bytes.
pub open spec fn packed(moves: Seq<Move>, total: nat) -> bool {
    &&& moves.len() == 0 ==> total == 0
    &&& moves.len() > 0 ==> moves[0].2.pos == 0 && total == moves.last().2.pos
        + moves.last().2.len
    &&& forall|a: int|
        0 < a < moves.len() ==> #[trigger] moves[a].2.pos == moves[a - 1].2.pos + moves[a
            - 1].2.len
}

fn append_range(out: &mut Vec<u8>, b: &Vec<u8>, lo: usize, hi: usize)
    requires
        lo <= hi <= b@.len(),
    ensures
        final(out)@ == old(out)@ + b@.subrange(lo as int, hi as int),
{
    let mut p: usize = lo;
    while p < hi
        invariant
            lo <= p <= hi <= b@.len(),
            out@ == old(out)@ + b@.subrange(lo as int, p as int),
        decreases hi - p,
    {
        out.push(b[p]);
        p = p + 1;
        assert(out@ =~= old(out)@ + b@.subrange(lo as int, p as int));
    }
}

/// Where segment `generation` stands in an ascending list, if it is there.
fn find_segment(segments: &Vec<(u64, Vec<u8>)>, generation: u64) -> (r: Option<usize>)
    ensures
        match r {
            Some(j) => j < segments@.len() && segments@[j as int].0 == generation,
            None => forall|j: int| 0 <= j < segments@.len() ==> segments@[j].0 != generation,
        },
{
    let mut j: usize = 0;
    while j < segments.len()
        invariant
            j <= segments@.len(),
            forall|i: int| 0 <= i < j ==> segments@[i].0 != generation,
        decreases segments@.len() - j,
    {
        if segments[j].0 == generation {
            return Some(j);
        }
        j = j + 1;
    }
    None
}

/// Rewrites the live records of `snapshot` (ascending generations) into one new
/// segment `target`: one `Put` per key that the snapshot leaves live, copied from
/// the latest record of that key, back to back. Returns the new segment's bytes and,
/// for each key, where its record was and where it is now.
#[verifier::rlimit(100)]
pub fn compact_segments(snapshot: &Vec<(u64, Vec<u8>)>, target: u64) -> (res: Result<
    (Vec<u8>, Vec<Move>),
    StoreError,
>)
    requires
        ascending(segs_view(snapshot@)),
    ensures
        match replay_segments(Map::empty(), segs_view(snapshot@)) {
            None => res is Err,
            Some(m) => res matches Ok((out, moves)) && {
                &&& forall|i: int, j: int|
                    0 <= i < j < moves@.len() ==> moves@[i].0@ != moves@[j].0@
                &&& packed(moves@, out@.len())
                &&& forall|k: Seq<u8>|
                    m.contains_key(k) ==> exists|i: int|
                        0 <= i < moves@.len() && #[trigger] moves@[i].0@ == k
                &&& forall|i: int|
                    0 <= i < moves@.len() ==> {
                        let (k, from, to) = #[trigger] moves@[i];
                        &&& m.contains_key(k@)
                        &&& m[k@] == from
                        &&& to.generation == target
                        &&& to.len == from.len
                        &&& to.pos + to.len <= out@.len()
                        &&& copied(segs_view(snapshot@), out@, k@, from, to)
                    }
            },
        },
{
    let ghost segs = segs_view(snapshot@);
    let index = match load(snapshot) {
        Ok(idx) => idx,
        Err(e) => {
            return Err(StoreError::Corrupt(e));
        },
    };
    let mut c: usize = 0;
    while c < snapshot.len()
        invariant
            c <= snapshot@.len(),
            segs == segs_view(snapshot@),
            forall|a: int| 0 <= a < c ==> #[trigger] segs[a].1.len() <= u64::MAX,
        decreases snapshot@.len() - c,
    {
        let n: usize = snapshot[c].1.len();
        assert(segs[c as int].1.len() == n);
        c = c + 1;
    }
    proof {
        assert(segs.subrange(0, segs.len() as int) =~= segs);
        lemma_replay_segments_valid(segs, segs.len() as int);
    }
    let ghost m = index@;
    let entries = index.entries();
    let mut out: Vec<u8> = Vec::new();
    let mut moves: Vec<Move> = Vec::new();
    let mut i: usize = 0;
    while i < entries.len()
        invariant
            i <= entries@.len(),
            segs == segs_view(snapshot@),
            ascending(segs),
            m == index@,
            Some(m) == replay_segments(Map::empty(), segs),
            locations_valid(segs, m),
            forall|a: int|
                0 <= a < entries@.len() ==> m.contains_key(#[trigger] entries@[a].0@)
                    && m[entries@[a].0@] == entries@[a].1,
            forall|a: int, b: int|
                0 <= a < b < entries@.len() ==> entries@[a].0@ != entries@[b].0@,
            forall|k: Seq<u8>|
                m.contains_key(k) ==> exists|a: int|
                    0 <= a < entries@.len() && #[trigger] entries@[a].0@ == k,
            moves@.len() == i,
            packed(moves@, out@.len()),
            forall|a: int|
                0 <= a < i ==> {
                    let (k, from, to) = #[trigger] moves@[a];
                    &&& k@ == entries@[a].0@
                    &&& from == entries@[a].1
                    &&& to.generation == target
                    &&& to.len == from.len
                    &&& to.pos + to.len <= out@.len()
                    &&& copied(segs, out@, k@, from, to)
                },
        decreases entries@.len() - i,
    {
        let from = entries[i].1;
        let ghost k = entries@[i as int].0@;
        assert(m.contains_key(k));
        let ghost w = choose|j: int| put_at(segs, j, k, m[k]);
        let j = match find_segment(snapshot, from.generation) {
            Some(j) => j,
            None => {
                assert(segs[w].0 == snapshot@[w].0);
                return Err(StoreError::MissingSegment { generation: from.generation });
            },
        };
        proof {
            if j as int != w {
                assert(segs[j as int].0 == snapshot@[j as int].0);
                assert(segs[w].0 == snapshot@[w].0);
                if (j as int) < w {
                    assert(segs[j as int].0 < segs[w].0);
                } else {
                    assert(segs[w].0 < segs[j as int].0);
                }
            }
            assert(segs[j as int].1 == snapshot@[j as int].1@);
            assert(put_at(segs, j as int, k, from));
            assert(from.pos + from.len <= snapshot@[j as int].1@.len());
        }
        let seg = &snapshot[j].1;
        let seg_len: usize = seg.len();
        if from.pos > seg_len as u64 || from.len > seg_len as u64 - from.pos {
            return Err(StoreError::UnexpectedRecord);
        }
        let start: usize = out.len();
        let ghost prefix = out@;
        let lo = from.pos as usize;
        let hi = (from.pos + from.len) as usize;
        append_range(&mut out, seg, lo, hi);
        assert(out@.subrange(0, start as int) =~= prefix);
        assert(out@.subrange(start as int, out@.len() as int) =~= seg@.subrange(lo as int, hi as int));
        let to = CommandPos { generation: target, pos: start as u64, len: from.len };
        proof {
            assert forall|a: int| 0 <= a < i implies copied(
                segs,
                out@,
                (#[trigger] moves@[a]).0@,
                moves@[a].1,
                moves@[a].2,
            ) by {
                lemma_copied_extend(segs, prefix, out@, moves@[a].0@, moves@[a].1, moves@[a].2);
            }
            reveal(copied);
            assert(out@.subrange(to.pos as int, to.pos + to.len) =~= seg@.subrange(lo as int, hi as int));
            assert(copied(segs, out@, k, from, to));
        }
        let ghost prev = moves@;
        moves.push((crate::index::clone_bytes(&entries[i].0), from, to));
        assert(forall|a: int| 0 <= a < prev.len() ==> moves@[a] == prev[a]);
        i = i + 1;
    }
    assert forall|k: Seq<u8>| m.contains_key(k) implies exists|a: int|
        0 <= a < moves@.len() && #[trigger] moves@[a].0@ == k by {
        let a = choose|a: int| 0 <= a < entries@.len() && #[trigger] entries@[a].0@ == k;
        assert(moves@[a].0@ == k);
    }
    assert(forall|a: int, b: int| 0 <= a < b < moves@.len() ==> moves@[a].0@ != moves@[b].0@);
    let res: Result<(Vec<u8>, Vec<Move>), StoreError> = Ok((out, moves));
    assert(res matches Ok((o, mv)) && o@ == out@ && mv@ == moves@);
    res
}

/// The value of `key` held by `record`, the exact bytes at an indexed location.
pub fn read_value(record: &Vec<u8>, key: &Vec<u8>) -> (res: Result<Vec<u8>, StoreError>)
    ensures
        match parse(record@) {
            None => res == Err::<Vec<u8>, StoreError>(StoreError::Corrupt(CorruptRecord { offset: 0 })),
            Some((c, n)) => match c {
                CommandView::Put { key: k, value: v } => if k == key@ && n == record@.len() {
                    res matches Ok(r) && r@ == v
                } else {
                    res == Err::<Vec<u8>, StoreError>(StoreError::UnexpectedRecord)
                },
                CommandView::Remove { .. } => res == Err::<Vec<u8>, StoreError>(
                    StoreError::UnexpectedRecord,
                ),
            },
        },
{
    assert(record@.subrange(0, record@.len() as int) =~= record@);
    match decode_at(record, 0, record.len()) {
        Err(e) => Err(StoreError::Corrupt(e)),
        Ok((Command::Put { key: k, value }, next)) => {
            if crate::index::bytes_eq(&k, key) && next == record.len() {
                Ok(value)
            } else {
                Err(StoreError::UnexpectedRecord)
            }
        },
        Ok((Command::Remove { .. }, _)) => Err(StoreError::UnexpectedRecord),
    }
}

} // verus!
