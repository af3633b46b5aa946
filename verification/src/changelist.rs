//! The change-log protocol: grid mutations packed into 32-bit words.
//!
//! Each record starts with a word whose top 4 bits are a tag; the payload
//! sits in the remaining bits, with `Resize` and `Spawn` carrying a second
//! raw word.  A `Changelist` is the ordered log of one simulation tick.

use vstd::prelude::*;

verus! {

pub const CLEAR_TAG: u32 = 0b0000;
pub const RESIZE_TAG: u32 = 0b0001;
pub const MOVE_TAG: u32 = 0b0010;
pub const SPAWN_TAG: u32 = 0b0011;

/// Where a falling cell went, relative to its source cell.
#[derive(Debug, PartialEq, Eq, Structural, Clone, Copy)]
pub enum Direction {
    Down,
    DownLeft,
    DownRight,
}

/// One grid mutation.  `Move` and `Spawn` address cells by flat row-major index.
#[derive(Debug, PartialEq, Eq, Structural, Clone, Copy)]
pub enum Change {
    Clear,
    Move(usize, Direction),
    Resize(usize, usize),
    Spawn { color: u32, pos: usize },
}

/// The two payload bits that encode a move direction.
pub open spec fn dir_bits(d: Direction) -> u32 {
    match d {
        Direction::Down => 0,
        Direction::DownLeft => 1,
        Direction::DownRight => 2,
    }
}

/// A record is encodable when its payload fits the field widths of the
/// word format: 26 bits for a move index, 28 bits for a spawn index and a
/// resize height, 32 bits for a resize width.
pub open spec fn change_valid(c: Change) -> bool {
    match c {
        Change::Clear => true,
        Change::Move(pos, _) => pos < 0x400_0000,
        Change::Resize(w, h) => w < 0x1_0000_0000 && h < 0x1000_0000,
        Change::Spawn { color: _, pos } => pos < 0x1000_0000,
    }
}

/// The words that encode one record.
pub open spec fn encode_change(c: Change) -> Seq<u32> {
    match c {
        Change::Clear => seq![CLEAR_TAG << 28],
        Change::Move(pos, d) => seq![(MOVE_TAG << 28) | ((pos as u32) << 2) | dir_bits(d)],
        Change::Resize(w, h) => seq![(RESIZE_TAG << 28) | (h as u32), w as u32],
        Change::Spawn { color, pos } => seq![(SPAWN_TAG << 28) | (pos as u32), color],
    }
}

/// The words that encode a sequence of records, in order.
pub open spec fn encode_changes(cs: Seq<Change>) -> Seq<u32>
    decreases cs.len(),
{
    if cs.len() == 0 {
        Seq::empty()
    } else {
        encode_change(cs[0]) + encode_changes(cs.skip(1))
    }
}

/// Decoding a word sequence back into records.  `None` on an unrecognized
/// tag, the reserved direction bit-pattern, or a truncated two-word record.
pub open spec fn decode_words(ws: Seq<u32>) -> Option<Seq<Change>>
    decreases ws.len(),
{
    if ws.len() == 0 {
        Some(Seq::empty())
    } else {
        let w = ws[0];
        let tag = w >> 28;
        if tag == CLEAR_TAG {
            match decode_words(ws.skip(1)) {
                Some(rest) => Some(seq![Change::Clear] + rest),
                None => None,
            }
        } else if tag == RESIZE_TAG {
            if ws.len() >= 2 {
                match decode_words(ws.skip(2)) {
                    Some(rest) => Some(
                        seq![Change::Resize(ws[1] as usize, (w & 0x0FFF_FFFF) as usize)] + rest,
                    ),
                    None => None,
                }
            } else {
                None
            }
        } else if tag == MOVE_TAG {
            let db = w & 3;
            if db < 3 {
                let d = if db == 0 {
                    Direction::Down
                } else if db == 1 {
                    Direction::DownLeft
                } else {
                    Direction::DownRight
                };
                match decode_words(ws.skip(1)) {
                    Some(rest) => Some(
                        seq![Change::Move(((w >> 2) & 0x03FF_FFFF) as usize, d)] + rest,
                    ),
                    None => None,
                }
            } else {
                None
            }
        } else if tag == SPAWN_TAG {
            if ws.len() >= 2 {
                match decode_words(ws.skip(2)) {
                    Some(rest) => Some(
                        seq![Change::Spawn { color: ws[1], pos: (w & 0x0FFF_FFFF) as usize }]
                            + rest,
                    ),
                    None => None,
                }
            } else {
                None
            }
        } else {
            None
        }
    }
}

/// The number of words that the leading record of a well-formed word
/// sequence occupies: two for `Resize` and `Spawn`, one otherwise.
pub open spec fn head_width(w: u32) -> int {
    if w >> 28 == RESIZE_TAG || w >> 28 == SPAWN_TAG {
        2
    } else {
        1
    }
}

/// Decoding one encoded record off the front of a word sequence recovers
/// that record, whatever follows it.
pub proof fn lemma_decode_prefix(c: Change, ws: Seq<u32>)
    requires
        change_valid(c),
    ensures
        decode_words(encode_change(c) + ws) == match decode_words(ws) {
            Some(rest) => Some(seq![c] + rest),
            None => None::<Seq<Change>>,
        },
{
    let all = encode_change(c) + ws;
    match c {
        Change::Clear => {
            let w = all[0];
            assert(w == CLEAR_TAG << 28);
            assert(w >> 28 == CLEAR_TAG) by (bit_vector)
                requires
                    w == CLEAR_TAG << 28,
            ;
            assert(all.skip(1) =~= ws);
        },
        Change::Move(pos, d) => {
            let p = pos as u32;
            let db = dir_bits(d);
            let w = all[0];
            assert(w == (MOVE_TAG << 28) | (p << 2) | db);
            assert(p < 0x400_0000) by (bit_vector)
                requires
                    p == pos as u32,
                    pos < 0x400_0000,
            ;
            assert(db < 3);
            assert(w >> 28 == MOVE_TAG && (w >> 2) & 0x03FF_FFFF == p && w & 3 == db)
                by (bit_vector)
                requires
                    w == (MOVE_TAG << 28) | (p << 2) | db,
                    p < 0x400_0000,
                    db < 3,
            ;
            assert((pos as u32) as usize == pos) by (bit_vector)
                requires
                    pos < 0x400_0000,
            ;
            assert(all.skip(1) =~= ws);
            match d {
                Direction::Down => {},
                Direction::DownLeft => {},
                Direction::DownRight => {},
            }
        },
        Change::Resize(width, height) => {
            let h = height as u32;
            let w0 = all[0];
            assert(w0 == (RESIZE_TAG << 28) | h);
            assert(h < 0x1000_0000) by (bit_vector)
                requires
                    h == height as u32,
                    height < 0x1000_0000,
            ;
            assert(w0 >> 28 == RESIZE_TAG && w0 & 0x0FFF_FFFF == h) by (bit_vector)
                requires
                    w0 == (RESIZE_TAG << 28) | h,
                    h < 0x1000_0000,
            ;
            assert((height as u32) as usize == height) by (bit_vector)
                requires
                    height < 0x1000_0000,
            ;
            assert(all[1] == width as u32);
            assert((width as u32) as usize == width) by (bit_vector)
                requires
                    width < 0x1_0000_0000,
            ;
            assert(all.skip(2) =~= ws);
        },
        Change::Spawn { color, pos } => {
            let p = pos as u32;
            let w0 = all[0];
            assert(w0 == (SPAWN_TAG << 28) | p);
            assert(p < 0x1000_0000) by (bit_vector)
                requires
                    p == pos as u32,
                    pos < 0x1000_0000,
            ;
            assert(w0 >> 28 == SPAWN_TAG && w0 & 0x0FFF_FFFF == p) by (bit_vector)
                requires
                    w0 == (SPAWN_TAG << 28) | p,
                    p < 0x1000_0000,
            ;
            assert((pos as u32) as usize == pos) by (bit_vector)
                requires
                    pos < 0x1000_0000,
            ;
            assert(all[1] == color);
            assert(all.skip(2) =~= ws);
        },
    }
}

/// Decoding distributes over concatenation: a log that decodes, followed by
/// any further words, decodes to the first log's records and then whatever
/// the tail decodes to.
pub proof fn lemma_decode_append(a: Seq<u32>, b: Seq<u32>)
    requires
        decode_words(a).is_some(),
    ensures
        decode_words(a + b) == match decode_words(b) {
            Some(db) => Some(decode_words(a).unwrap() + db),
            None => None::<Seq<Change>>,
        },
    decreases a.len(),
{
    if a.len() == 0 {
        assert(a + b =~= b);
        if decode_words(b).is_some() {
            assert(decode_words(a).unwrap() + decode_words(b).unwrap() =~= decode_words(
                b,
            ).unwrap());
        }
    } else {
        let k = head_width(a[0]);
        assert(a.len() >= k);
        assert((a + b)[0] == a[0]);
        if k == 2 {
            assert((a + b)[1] == a[1]);
        }
        assert((a + b).skip(k) =~= a.skip(k) + b);
        assert(decode_words(a.skip(k)).is_some());
        lemma_decode_append(a.skip(k), b);
        if decode_words(b).is_some() {
            let hd = decode_words(a).unwrap()[0];
            assert(seq![hd] + (decode_words(a.skip(k)).unwrap() + decode_words(b).unwrap())
                =~= decode_words(a).unwrap() + decode_words(b).unwrap());
        }
    }
}

/// The round-trip law: decoding the words produced by encoding any
/// sequence of valid records yields that exact sequence, in order.
pub proof fn lemma_round_trip(cs: Seq<Change>)
    requires
        forall|i: int| 0 <= i < cs.len() ==> change_valid(#[trigger] cs[i]),
    ensures
        decode_words(encode_changes(cs)) == Some(cs),
    decreases cs.len(),
{
    if cs.len() == 0 {
        assert(encode_changes(cs) == Seq::<u32>::empty());
        assert(decode_words(encode_changes(cs)) == Some(Seq::<Change>::empty()));
        assert(Seq::<Change>::empty() =~= cs);
    } else {
        assert(forall|i: int|
            0 <= i < cs.skip(1).len() ==> change_valid(#[trigger] cs.skip(1)[i]));
        lemma_round_trip(cs.skip(1));
        lemma_decode_prefix(cs[0], encode_changes(cs.skip(1)));
        assert(seq![cs[0]] + cs.skip(1) =~= cs);
    }
}

/// One valid record's words decode back to exactly that record.
pub proof fn lemma_decode_single(c: Change)
    requires
        change_valid(c),
    ensures
        decode_words(encode_change(c)) == Some(seq![c]),
{
    lemma_decode_prefix(c, Seq::empty());
    assert(encode_change(c) + Seq::<u32>::empty() =~= encode_change(c));
    assert(seq![c] + Seq::<Change>::empty() =~= seq![c]);
}

/// Appending one valid encoded record to a log that decodes extends the
/// decoded record sequence by exactly that record.
pub proof fn lemma_decode_push(ws: Seq<u32>, c: Change)
    requires
        decode_words(ws).is_some(),
        change_valid(c),
    ensures
        decode_words(ws + encode_change(c)) == Some(decode_words(ws).unwrap().push(c)),
{
    lemma_decode_prefix(c, Seq::empty());
    assert(encode_change(c) + Seq::<u32>::empty() =~= encode_change(c));
    assert(seq![c] + Seq::<Change>::empty() =~= seq![c]);
    lemma_decode_append(ws, encode_change(c));
    assert(decode_words(ws).unwrap() + seq![c] =~= decode_words(ws).unwrap().push(c));
}

/// The ordered log of the mutations of one simulation tick, as encoded words.
#[derive(Debug, Clone)]
pub struct Changelist {
    pub changes: Vec<u32>,
}

impl Changelist {
    pub fn new() -> (r: Self)
        ensures
            r.changes@ == Seq::<u32>::empty(),
    {
        Self { changes: Vec::new() }
    }

    /// Reuses a spent log's allocation for the next tick.
    pub fn using_capacity(previous: Self) -> (r: Self)
        ensures
            r.changes@ == Seq::<u32>::empty(),
    {
        let mut previous = previous;
        previous.changes.clear();
        previous
    }

    /// Truncates the log to a single `Clear` record: a consumer must treat
    /// it as a full reset, so earlier records of the tick are discarded.
    pub fn clear(&mut self)
        ensures
            final(self).changes@ == encode_change(Change::Clear),
    {
        self.changes.clear();
        self.changes.push(CLEAR_TAG << 28);
    }

    /// Appends a `Resize` record: a word carrying the tag and the new
    /// height, then the new width as a raw word.
    pub fn resize(&mut self, width: usize, height: usize)
        requires
            change_valid(Change::Resize(width, height)),
        ensures
            final(self).changes@ == old(self).changes@ + encode_change(
                Change::Resize(width, height),
            ),
    {
        self.changes.push((RESIZE_TAG << 28) | (height as u32));
        self.changes.push(width as u32);
    }

    pub fn move_pixel(&mut self, pos: usize, direction: Direction)
        requires
            change_valid(Change::Move(pos, direction)),
        ensures
            final(self).changes@ == old(self).changes@ + encode_change(
                Change::Move(pos, direction),
            ),
    {
        let bits: u32 = match direction {
            Direction::Down => 0,
            Direction::DownLeft => 1,
            Direction::DownRight => 2,
        };
        self.changes.push((MOVE_TAG << 28) | ((pos as u32) << 2) | bits);
    }

    pub fn spawn(&mut self, pos: usize, color: u32)
        requires
            change_valid(Change::Spawn { color, pos }),
        ensures
            final(self).changes@ == old(self).changes@ + encode_change(
                Change::Spawn { color, pos },
            ),
    {
        self.changes.push((SPAWN_TAG << 28) | (pos as u32));
        self.changes.push(color);
    }

    /// Decodes the whole log into its records, in order.  The log is an
    /// internal protocol, never untrusted input, so a caller must hand in a
    /// well-formed word sequence.
    pub fn iter(&self) -> (r: Vec<Change>)
        requires
            decode_words(self.changes@).is_some(),
        ensures
            Some(r@) == decode_words(self.changes@),
    {
        let mut out: Vec<Change> = Vec::new();
        let mut i: usize = 0;
        proof {
            assert(self.changes@.skip(0) =~= self.changes@);
            assert(out@ + decode_words(self.changes@).unwrap() =~= decode_words(
                self.changes@,
            ).unwrap());
        }
        while i < self.changes.len()
            invariant
                i <= self.changes.len(),
                decode_words(self.changes@).is_some(),
                decode_words(self.changes@.skip(i as int)).is_some(),
                Some(out@ + decode_words(self.changes@.skip(i as int)).unwrap())
                    == decode_words(self.changes@),
            decreases self.changes.len() - i,
        {
            let ghost i0 = i as int;
            let ghost tail = self.changes@.skip(i0);
            let ghost rest = decode_words(tail).unwrap();
            let w = self.changes[i];
            proof {
                assert(tail[0] == w);
            }
            let tag = w >> 28;
            if tag == CLEAR_TAG {
                out.push(Change::Clear);
                i = i + 1;
                proof {
                    assert(tail.skip(1) =~= self.changes@.skip(i as int));
                    assert(out@ + rest.skip(1) =~= out@.drop_last() + rest);
                }
            } else if tag == RESIZE_TAG {
                proof {
                    assert(tail.len() >= 2);
                    assert(tail[1] == self.changes@[i0 + 1]);
                }
                let height = (w & 0x0FFF_FFFF) as usize;
                let width = self.changes[i + 1] as usize;
                out.push(Change::Resize(width, height));
                i = i + 2;
                proof {
                    assert(tail.skip(2) =~= self.changes@.skip(i as int));
                    assert(out@ + rest.skip(1) =~= out@.drop_last() + rest);
                }
            } else if tag == MOVE_TAG {
                let db = w & 3;
                let direction = if db == 0 {
                    Direction::Down
                } else if db == 1 {
                    Direction::DownLeft
                } else if db == 2 {
                    Direction::DownRight
                } else {
                    proof {
                        assert(false);
                    }
                    Direction::Down
                };
                let pos = ((w >> 2) & 0x03FF_FFFF) as usize;
                out.push(Change::Move(pos, direction));
                i = i + 1;
                proof {
                    assert(tail.skip(1) =~= self.changes@.skip(i as int));
                    assert(out@ + rest.skip(1) =~= out@.drop_last() + rest);
                }
            } else if tag == SPAWN_TAG {
                proof {
                    assert(tail.len() >= 2);
                    assert(tail[1] == self.changes@[i0 + 1]);
                }
                let color = self.changes[i + 1];
                let pos = (w & 0x0FFF_FFFF) as usize;
                out.push(Change::Spawn { color, pos });
                i = i + 2;
                proof {
                    assert(tail.skip(2) =~= self.changes@.skip(i as int));
                    assert(out@ + rest.skip(1) =~= out@.drop_last() + rest);
                }
            } else {
                proof {
                    assert(false);
                }
                i = i + 1;
            }
        }
        proof {
            assert(self.changes@.skip(i as int) =~= Seq::<u32>::empty());
            assert(out@ + Seq::<Change>::empty() =~= out@);
        }
        out
    }
}

/// The words that a log built record by record holds: `Clear` truncates
/// what came before it, every other record appends.
pub open spec fn build_words(cs: Seq<Change>) -> Seq<u32>
    decreases cs.len(),
{
    if cs.len() == 0 {
        Seq::empty()
    } else {
        let prefix = build_words(cs.drop_last());
        match cs.last() {
            Change::Clear => encode_change(cs.last()),
            Change::Resize(_, _) => prefix + encode_change(cs.last()),
            Change::Move(_, _) => prefix + encode_change(cs.last()),
            Change::Spawn { .. } => prefix + encode_change(cs.last()),
        }
    }
}

impl Changelist {
    /// Builds a log by recording the given changes one after the other.
    pub fn from_changes(changes: &[Change]) -> (r: Self)
        requires
            forall|i: int| 0 <= i < changes@.len() ==> change_valid(#[trigger] changes@[i]),
        ensures
            r.changes@ == build_words(changes@),
    {
        let mut changelist = Self::new();
        let n = changes.len();
        assert(changes@.take(0) =~= Seq::<Change>::empty());
        for i in 0..n
            invariant
                n == changes@.len(),
                forall|j: int| 0 <= j < changes@.len() ==> change_valid(#[trigger] changes@[j]),
                changelist.changes@ == build_words(changes@.take(i as int)),
        {
            let change = changes[i];
            match change {
                Change::Clear => changelist.clear(),
                Change::Resize(width, height) => changelist.resize(width, height),
                Change::Move(pos, direction) => changelist.move_pixel(pos, direction),
                Change::Spawn { color, pos } => changelist.spawn(pos, color),
            }
            proof {
                let t = changes@.take(i + 1);
                assert(t.drop_last() =~= changes@.take(i as int));
                assert(t.last() == changes@[i as int]);
            }
        }
        proof {
            assert(changes@.take(n as int) =~= changes@);
        }
        changelist
    }
}

} // verus!
