use vstd::prelude::*;
use crate::codec::{decode_at, encoding, parse, lemma_parse_encoding, Command, CommandView, CorruptRecord};
use crate::index::{CommandPos, Index};

verus! {

/// The index after one record at `pos`, `len` bytes long, in segment `generation`.
pub open spec fn apply_record(
    m: Map<Seq<u8>, CommandPos>,
    c: CommandView,
    generation: u64,
    pos: nat,
    len: nat,
) -> Map<Seq<u8>, CommandPos> {
    match c {
        CommandView::Put { key, .. } => m.insert(
            key,
            CommandPos { generation, pos: pos as u64, len: len as u64 },
        ),
        CommandView::Remove { key } => m.remove(key),
    }
}

/// The index after replaying the records of segment `generation` from offset `off`
/// to the end of `s`; `None` where the bytes there are not a whole run of records.
pub open spec fn replay_from(
    m: Map<Seq<u8>, CommandPos>,
    generation: u64,
    s: Seq<u8>,
    off: nat,
) -> Option<Map<Seq<u8>, CommandPos>>
    decreases s.len() - off,
{
    if off >= s.len() {
        Some(m)
    } else {
        match parse(s.subrange(off as int, s.len() as int)) {
            Some((c, n)) => if n > 0 {
                replay_from(apply_record(m, c, generation, off, n), generation, s, off + n)
            } else {
                None
            },
            None => None,
        }
    }
}

/// The index after replaying whole segments, in the order given.
pub open spec fn replay_segments(
    m: Map<Seq<u8>, CommandPos>,
    segs: Seq<(u64, Seq<u8>)>,
) -> Option<Map<Seq<u8>, CommandPos>>
    decreases segs.len(),
{
    if segs.len() == 0 {
        Some(m)
    } else {
        match replay_segments(m, segs.drop_last()) {
            Some(m2) => replay_from(m2, segs.last().0, segs.last().1, 0),
            None => None,
        }
    }
}

/// Generations strictly ascending.
pub open spec fn ascending(segs: Seq<(u64, Seq<u8>)>) -> bool {
    forall|i: int, j: int| 0 <= i < j < segs.len() ==> segs[i].0 < segs[j].0
}

/// Replays one segment into `index`.
pub fn replay_segment(index: &mut Index, generation: u64, bytes: &Vec<u8>) -> (res: Result<(), CorruptRecord>)
    requires
        old(index).wf(),
    ensures
        final(index).wf(),
        match replay_from(old(index)@, generation, bytes@, 0) {
            Some(m) => res is Ok && final(index)@ == m,
            None => res is Err,
        },
{
    let mut off: usize = 0;
    while off < bytes.len()
        invariant
            index.wf(),
            off <= bytes@.len(),
            replay_from(old(index)@, generation, bytes@, 0) == replay_from(
                index@,
                generation,
                bytes@,
                off as nat,
            ),
        decreases bytes@.len() - off,
    {
        match decode_at(bytes, off, bytes.len()) {
            Ok((cmd, next)) => {
                let len = next - off;
                match cmd {
                    Command::Put { key, .. } => {
                        index.insert(
                            key,
                            CommandPos { generation, pos: off as u64, len: len as u64 },
                        );
                    },
                    Command::Remove { key } => {
                        index.remove(&key);
                    },
                }
                off = next;
            },
            Err(e) => {
                return Err(e);
            },
        }
    }
    Ok(())
}

/// Rebuilds the index from every segment, replayed in ascending generation order:
/// later records win, and a `Remove` forgets its key.
pub fn load(segments: &Vec<(u64, Vec<u8>)>) -> (res: Result<Index, CorruptRecord>)
    ensures
        match replay_segments(Map::empty(), segments@.map_values(|s: (u64, Vec<u8>)| (s.0, s.1@))) {
            Some(m) => res matches Ok(idx) && idx.wf() && idx@ == m,
            None => res is Err,
        },
{
    let ghost segs = segments@.map_values(|s: (u64, Vec<u8>)| (s.0, s.1@));
    let mut index = Index::new();
    let mut i: usize = 0;
    while i < segments.len()
        invariant
            i <= segments@.len(),
            segs == segments@.map_values(|s: (u64, Vec<u8>)| (s.0, s.1@)),
            index.wf(),
            replay_segments(Map::empty(), segs.subrange(0, i as int)) == Some(index@),
        decreases segments@.len() - i,
    {
        assert(segs.subrange(0, i + 1).drop_last() =~= segs.subrange(0, i as int));
        let r = replay_segment(&mut index, segments[i].0, &segments[i].1);
        if r.is_err() {
            assert(segs.subrange(0, i + 1 as int) == segs.subrange(0, i + 1));
            proof {
                lemma_replay_segments_fails(segs, i + 1);
            }
            return Err(r.unwrap_err());
        }
        i = i + 1;
    }
    assert(segs.subrange(0, segs.len() as int) =~= segs);
    Ok(index)
}

pub(crate) proof fn lemma_parse_prefix(x: Seq<u8>, y: Seq<u8>)
    requires
        parse(x) is Some,
    ensures
        parse(x + y) == parse(x),
{
    let s = x + y;
    if x.len() >= 9 {
        assert(s.subrange(1, 9) =~= x.subrange(1, 9));
        let kend = 9 + crate::codec::read_le64(x.subrange(1, 9)) as int;
        if kend <= x.len() {
            assert(s.subrange(9, kend) =~= x.subrange(9, kend));
        }
        if kend + 8 <= x.len() {
            assert(s.subrange(kend, kend + 8) =~= x.subrange(kend, kend + 8));
            let vend = kend + 8 + crate::codec::read_le64(x.subrange(kend, kend + 8)) as int;
            if vend <= x.len() {
                assert(s.subrange(kend + 8, vend) =~= x.subrange(kend + 8, vend));
            }
        }
    }
}

proof fn lemma_replay_extend(
    m: Map<Seq<u8>, CommandPos>,
    generation: u64,
    s: Seq<u8>,
    t: Seq<u8>,
    off: nat,
)
    requires
        off <= s.len(),
        replay_from(m, generation, s, off) is Some,
    ensures
        replay_from(m, generation, s + t, off) == replay_from(
            replay_from(m, generation, s, off)->0,
            generation,
            s + t,
            s.len(),
        ),
    decreases s.len() - off,
{
    if off < s.len() {
        let x = s.subrange(off as int, s.len() as int);
        let (c, n) = parse(x)->0;
        lemma_parse_prefix(x, t);
        assert((s + t).subrange(off as int, (s + t).len() as int) =~= x + t);
        lemma_replay_extend(apply_record(m, c, generation, off, n), generation, s, t, off + n);
    }
}

/// Appending one record to a segment that replays cleanly changes what replay
/// rebuilds exactly as a write changes the live index: the record is applied at
/// the offset where it was appended. So reopening a store rebuilds the index that
/// its writes left.
pub proof fn lemma_replay_append(
    m: Map<Seq<u8>, CommandPos>,
    generation: u64,
    s: Seq<u8>,
    c: CommandView,
)
    requires
        c.encodable(),
        replay_from(m, generation, s, 0) is Some,
    ensures
        replay_from(m, generation, s + encoding(c), 0) == Some(
            apply_record(
                replay_from(m, generation, s, 0)->0,
                c,
                generation,
                s.len(),
                encoding(c).len(),
            ),
        ),
{
    let e = encoding(c);
    let r = replay_from(m, generation, s, 0)->0;
    lemma_replay_extend(m, generation, s, e, 0);
    lemma_parse_encoding(c, Seq::empty());
    assert(e + Seq::<u8>::empty() =~= e);
    assert((s + e).subrange(s.len() as int, (s + e).len() as int) =~= e);
    let r2 = apply_record(r, c, generation, s.len(), e.len());
    assert(replay_from(r2, generation, s + e, s.len() + e.len()) == Some(r2));
}

/// Reopening a store after a write to its newest segment rebuilds the index that
/// the write left: replaying all segments, with the record appended to the last
/// one, gives the earlier replay with that record applied where it was appended.
pub proof fn lemma_reopen_after_write(
    m: Map<Seq<u8>, CommandPos>,
    segs: Seq<(u64, Seq<u8>)>,
    c: CommandView,
)
    requires
        segs.len() > 0,
        c.encodable(),
        replay_segments(m, segs) is Some,
    ensures
        ({
            let (g, s) = segs.last();
            replay_segments(m, segs.update(segs.len() - 1, (g, s + encoding(c)))) == Some(
                apply_record(
                    replay_segments(m, segs)->0,
                    c,
                    g,
                    s.len(),
                    encoding(c).len(),
                ),
            )
        }),
{
    let (g, s) = segs.last();
    let after = segs.update(segs.len() - 1, (g, s + encoding(c)));
    assert(after.drop_last() =~= segs.drop_last());
    let m2 = replay_segments(m, segs.drop_last())->0;
    lemma_replay_append(m2, g, s, c);
}

/// Reopening a store after a rotation, or after an earlier reopening that wrote
/// nothing, rebuilds the same index: a new, empty segment changes no replay.
pub proof fn lemma_reopen_after_rotation(
    m: Map<Seq<u8>, CommandPos>,
    segs: Seq<(u64, Seq<u8>)>,
    generation: u64,
)
    ensures
        replay_segments(m, segs.push((generation, Seq::<u8>::empty()))) == replay_segments(
            m,
            segs,
        ),
{
    assert(segs.push((generation, Seq::<u8>::empty())).drop_last() =~= segs);
}

/// One step of a store's history on disk: a record appended to the newest
/// segment, or a rotation to a new, empty segment.
pub enum LogOp {
    Append(CommandView),
    Rotate(u64),
}

/// The segments and the live index after running `ops` from `segs` and `m`: an
/// append applies its record at the offset where it lands, a rotation leaves the
/// index alone.
pub open spec fn run_log(
    segs: Seq<(u64, Seq<u8>)>,
    m: Map<Seq<u8>, CommandPos>,
    ops: Seq<LogOp>,
) -> (Seq<(u64, Seq<u8>)>, Map<Seq<u8>, CommandPos>)
    decreases ops.len(),
{
    if ops.len() == 0 {
        (segs, m)
    } else {
        let (s2, m2) = run_log(segs, m, ops.drop_last());
        match ops.last() {
            LogOp::Append(c) => if s2.len() > 0 {
                let (g, b) = s2.last();
                (
                    s2.update(s2.len() - 1, (g, b + encoding(c))),
                    apply_record(m2, c, g, b.len(), encoding(c).len()),
                )
            } else {
                (s2, m2)
            },
            LogOp::Rotate(g) => (s2.push((g, Seq::<u8>::empty())), m2),
        }
    }
}

/// Reopening a store after any history of appends (sets and tombstones alike) and
/// rotations rebuilds exactly the index that the history left: replaying the
/// segments it produced gives the index it maintained.
pub proof fn lemma_reopen_after_history(
    m0: Map<Seq<u8>, CommandPos>,
    segs: Seq<(u64, Seq<u8>)>,
    ops: Seq<LogOp>,
)
    requires
        replay_segments(m0, segs) is Some,
        forall|i: int| 0 <= i < ops.len() ==> (#[trigger] ops[i] matches LogOp::Append(c) ==> c.encodable()),
    ensures
        replay_segments(m0, run_log(segs, replay_segments(m0, segs)->0, ops).0) == Some(
            run_log(segs, replay_segments(m0, segs)->0, ops).1,
        ),
    decreases ops.len(),
{
    if ops.len() > 0 {
        let pre = ops.drop_last();
        assert forall|i: int| 0 <= i < pre.len() implies (#[trigger] pre[i] matches LogOp::Append(
            c,
        ) ==> c.encodable()) by {
            assert(pre[i] == ops[i]);
        }
        lemma_reopen_after_history(m0, segs, pre);
        let m = replay_segments(m0, segs)->0;
        let (s2, m2) = run_log(segs, m, pre);
        assert(ops[ops.len() - 1] == ops.last());
        match ops.last() {
            LogOp::Append(c) => {
                if s2.len() > 0 {
                    lemma_reopen_after_write(m0, s2, c);
                }
            },
            LogOp::Rotate(g) => {
                lemma_reopen_after_rotation(m0, s2, g);
            },
        }
    }
}

proof fn lemma_replay_segments_fails(segs: Seq<(u64, Seq<u8>)>, n: int)
    requires
        0 < n <= segs.len(),
        replay_segments(Map::empty(), segs.subrange(0, n)) is None,
    ensures
        replay_segments(Map::empty(), segs) is None,
    decreases segs.len() - n,
{
    if n < segs.len() {
        assert(segs.subrange(0, n + 1).drop_last() =~= segs.subrange(0, n));
        lemma_replay_segments_fails(segs, n + 1);
    } else {
        assert(segs.subrange(0, n) =~= segs);
    }
}

} // verus!
