//! The write-ahead log's format: one serialized record per line. Each record is appended as its
//! bytes and a newline; replay reads the file back line by line as `BufRead::lines` does.

use vstd::prelude::*;

verus! {

/// The newline byte.
pub const NEWLINE: u8 = 10;

/// The carriage-return byte.
pub const CARRIAGE_RETURN: u8 = 13;

/// A line without the carriage return that ends it, if one does.
pub open spec fn strip_cr(line: Seq<u8>) -> Seq<u8> {
    if line.len() > 0 && line.last() == CARRIAGE_RETURN {
        line.drop_last()
    } else {
        line
    }
}

/// Reading one more byte: a newline ends the current line (dropping a carriage return before
/// it), any other byte extends it. The state is the lines read so far and the current line.
pub open spec fn read_step(st: (Seq<Seq<u8>>, Seq<u8>), c: u8) -> (Seq<Seq<u8>>, Seq<u8>) {
    if c == NEWLINE {
        (st.0.push(strip_cr(st.1)), seq![])
    } else {
        (st.0, st.1.push(c))
    }
}

/// The reading state after the bytes `b`, starting from `st`.
pub open spec fn read_bytes(st: (Seq<Seq<u8>>, Seq<u8>), b: Seq<u8>) -> (Seq<Seq<u8>>, Seq<u8>)
    decreases b.len(),
{
    if b.len() == 0 {
        st
    } else {
        read_step(read_bytes(st, b.drop_last()), b.last())
    }
}

/// The lines of a file as `BufRead::lines` yields them: split at each newline, a carriage return
/// before the newline dropped, and a last line without a newline kept if it is not empty.
pub open spec fn wal_lines(b: Seq<u8>) -> Seq<Seq<u8>> {
    let st = read_bytes((seq![], seq![]), b);
    if st.1.len() > 0 {
        st.0.push(st.1)
    } else {
        st.0
    }
}

/// The bytes of a log holding the records `rs`: each followed by a newline.
pub open spec fn wal_frames(rs: Seq<Seq<u8>>) -> Seq<u8>
    decreases rs.len(),
{
    if rs.len() == 0 {
        seq![]
    } else {
        wal_frames(rs.drop_last()) + rs.last() + seq![NEWLINE]
    }
}

/// What appending `record` writes: the record and a newline.
pub fn wal_frame(record: Vec<u8>) -> (r: Vec<u8>)
    ensures
        r@ == record@ + seq![NEWLINE],
{
    let mut r = record;
    r.push(NEWLINE);
    r
}

/// Splits the contents of a log file into its lines (see `wal_lines`).
pub fn wal_split_lines(contents: &Vec<u8>) -> (r: Vec<Vec<u8>>)
    ensures
        r@.map_values(|l: Vec<u8>| l@) == wal_lines(contents@),
{
    let n = contents.len();
    let mut lines: Vec<Vec<u8>> = Vec::new();
    let mut cur: Vec<u8> = Vec::new();
    for i in 0..n
        invariant
            n == contents@.len(),
            (lines@.map_values(|l: Vec<u8>| l@), cur@) == read_bytes((seq![], seq![]), contents@.take(i as int)),
    {
        assert(contents@.take(i + 1).drop_last() =~= contents@.take(i as int));
        assert(contents@.take(i + 1).last() == contents@[i as int]);
        let c = contents[i];
        let ghost before = lines@.map_values(|l: Vec<u8>| l@);
        if c == NEWLINE {
            let k = cur.len();
            if k > 0 && cur[k - 1] == CARRIAGE_RETURN {
                let _ = cur.pop();
            }
            let mut line: Vec<u8> = Vec::new();
            std::mem::swap(&mut line, &mut cur);
            lines.push(line);
            assert(lines@.map_values(|l: Vec<u8>| l@) =~= before.push(lines@[lines@.len() - 1]@));
            assert(cur@ =~= Seq::<u8>::empty());
        } else {
            cur.push(c);
        }
    }
    assert(contents@.take(n as int) =~= contents@);
    if cur.len() > 0 {
        let ghost before = lines@.map_values(|l: Vec<u8>| l@);
        lines.push(cur);
        assert(lines@.map_values(|l: Vec<u8>| l@) =~= before.push(lines@[lines@.len() - 1]@));
    }
    lines
}

proof fn lemma_read_concat(st: (Seq<Seq<u8>>, Seq<u8>), a: Seq<u8>, b: Seq<u8>)
    ensures
        read_bytes(st, a + b) == read_bytes(read_bytes(st, a), b),
    decreases b.len(),
{
    if b.len() == 0 {
        assert(a + b =~= a);
    } else {
        assert((a + b).drop_last() =~= a + b.drop_last());
        assert((a + b).last() == b.last());
        lemma_read_concat(st, a, b.drop_last());
    }
}

proof fn lemma_read_plain(ls: Seq<Seq<u8>>, r: Seq<u8>)
    requires
        forall|i: int| 0 <= i < r.len() ==> r[i] != NEWLINE,
    ensures
        read_bytes((ls, seq![]), r) == (ls, r),
    decreases r.len(),
{
    if r.len() > 0 {
        lemma_read_plain(ls, r.drop_last());
        assert(r.drop_last().push(r.last()) =~= r);
    } else {
        assert(r =~= Seq::<u8>::empty());
    }
}

/// A record that can stand on a line of its own: no newline in it, and no carriage return at
/// its end.
pub open spec fn line_safe(r: Seq<u8>) -> bool {
    &&& forall|i: int| 0 <= i < r.len() ==> r[i] != NEWLINE
    &&& r.len() > 0 ==> r.last() != CARRIAGE_RETURN
}

/// Replaying a log gives back the records that were appended to it, in order, when none of
/// them holds a newline or ends with a carriage return (serialized JSON never does).
pub proof fn lemma_wal_round_trip(rs: Seq<Seq<u8>>)
    requires
        forall|j: int| 0 <= j < rs.len() ==> line_safe(#[trigger] rs[j]),
    ensures
        wal_lines(wal_frames(rs)) == rs,
{
    lemma_wal_frames_read(rs);
}

proof fn lemma_wal_frames_read(rs: Seq<Seq<u8>>)
    requires
        forall|j: int| 0 <= j < rs.len() ==> line_safe(#[trigger] rs[j]),
    ensures
        read_bytes((seq![], seq![]), wal_frames(rs)) == (rs, Seq::<u8>::empty()),
    decreases rs.len(),
{
    if rs.len() == 0 {
    } else {
        let p = rs.drop_last();
        let r = rs.last();
        assert forall|j: int| 0 <= j < p.len() implies line_safe(#[trigger] p[j]) by {
            assert(p[j] == rs[j]);
        }
        assert(line_safe(rs[rs.len() - 1]));
        lemma_wal_frames_read(p);
        let st0 = (Seq::<Seq<u8>>::empty(), Seq::<u8>::empty());
        lemma_read_concat(st0, wal_frames(p), r + seq![NEWLINE]);
        assert(wal_frames(rs) =~= wal_frames(p) + (r + seq![NEWLINE]));
        lemma_read_concat((p, seq![]), r, seq![NEWLINE]);
        lemma_read_plain(p, r);
        assert(read_bytes((p, r), seq![NEWLINE]) == read_step((p, r), NEWLINE)) by {
            let nl = seq![NEWLINE];
            assert(nl.drop_last() =~= Seq::<u8>::empty());
            assert(read_bytes((p, r), nl.drop_last()) == (p, r));
            assert(nl.last() == NEWLINE);
        }
        assert(strip_cr(r) == r);
        assert(p.push(r) =~= rs);
    }
}

} // verus!
