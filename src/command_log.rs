//! The command log: sequence numbers for accepted mutations, the lines that
//! record them, and the rebuilding of a node's state from those lines.
use vstd::prelude::*;

use crate::codec::{decode_line, decode_record, encode_line, encode_record, storable};
use crate::message::{Command, CommandView};
use crate::store::{apply_command, apply_commands, KV};

verus! {

/// The characters of each line.
pub open spec fn texts(lines: Seq<String>) -> Seq<Seq<char>> {
    lines.map_values(|l: String| l@)
}

/// The store rebuilt from `lines`, starting empty and applying each
/// well-formed record in order; other lines are skipped.
pub open spec fn replay(lines: Seq<Seq<char>>) -> Map<Seq<char>, Seq<char>>
    decreases lines.len(),
{
    if lines.len() == 0 {
        Map::empty()
    } else {
        match decode_record(lines.last()) {
            Some((_, c)) => apply_command(replay(lines.drop_last()), c),
            None => replay(lines.drop_last()),
        }
    }
}

/// One past the highest sequence number recorded in `lines`, or 0 when no
/// line is a well-formed record.
pub open spec fn recovered_next(lines: Seq<Seq<char>>) -> nat
    decreases lines.len(),
{
    if lines.len() == 0 {
        0
    } else {
        let before = recovered_next(lines.drop_last());
        match decode_record(lines.last()) {
            Some((n, _)) => if n + 1 > before {
                (n + 1) as nat
            } else {
                before
            },
            None => before,
        }
    }
}

/// The lines a log writes for the mutations `ops`, numbered from `start`.
pub open spec fn encode_all(ops: Seq<CommandView>, start: nat) -> Seq<Seq<char>> {
    Seq::new(ops.len(), |i: int| encode_record((start + i) as nat, ops[i]))
}

/// Every mutation of `ops` can be written to the log.
pub open spec fn all_storable(ops: Seq<CommandView>) -> bool {
    forall|i: int| 0 <= i < ops.len() ==> #[trigger] storable(ops[i])
}

/// A record ready to be written: its sequence number and its line (without
/// the line break).
pub struct LogLine {
    pub sequence: usize,
    pub text: String,
}

/// The sequence counter of one node's command log, and the file it writes to.
pub struct CommandLog {
    filename: String,
    next_sequence: usize,
}

impl CommandLog {
    /// The sequence number the next local append will assign.
    pub closed spec fn next(&self) -> nat {
        self.next_sequence as nat
    }

    /// The name of the backing file.
    pub closed spec fn spec_filename(&self) -> Seq<char> {
        self.filename@
    }

    /// The log of file `filename` whose existing lines are `lines`: its
    /// counter starts one past the highest sequence number found. `None` when
    /// that number is `usize::MAX`, which leaves no sequence number to assign.
    pub fn new(filename: String, lines: &Vec<String>) -> (r: Option<CommandLog>)
        ensures
            match r {
                Some(log) => log.next() == recovered_next(texts(lines@)) && log.spec_filename()
                    == filename@,
                None => recovered_next(texts(lines@)) > usize::MAX,
            },
    {
        let ghost all = texts(lines@);
        let mut next: usize = 0;
        let mut i: usize = 0;
        while i < lines.len()
            invariant
                0 <= i <= lines.len(),
                all == texts(lines@),
                next == recovered_next(all.take(i as int)),
            decreases lines.len() - i,
        {
            assert(all.take(i + 1).drop_last() =~= all.take(i as int));
            assert(all.take(i + 1).last() == lines@[i as int]@);
            match decode_line(lines[i].as_str()) {
                Some((n, _)) => {
                    if n == usize::MAX {
                        proof {
                            lemma_recovered_next_grows(all, i + 1);
                        }
                        return None;
                    }
                    if n + 1 > next {
                        next = n + 1;
                    }
                },
                None => {},
            }
            i = i + 1;
        }
        assert(all.take(lines.len() as int) =~= all);
        Some(CommandLog { filename, next_sequence: next })
    }

    /// Assigns the next sequence number to a local mutation and gives the
    /// line to write. `None` when the counter is at `usize::MAX`: the
    /// sequence numbers are used up and the log is left as it was.
    pub fn append(&mut self, command: &Command) -> (r: Option<LogLine>)
        requires
            storable(command@),
        ensures
            match r {
                Some(line) => {
                    &&& line.sequence == old(self).next()
                    &&& final(self).next() == old(self).next() + 1
                    &&& line.text@ == encode_record(line.sequence as nat, command@)
                    &&& final(self).spec_filename() == old(self).spec_filename()
                },
                None => old(self).next() == usize::MAX && *final(self) == *old(self),
            },
    {
        if self.next_sequence == usize::MAX {
            return None;
        }
        let sequence = self.next_sequence;
        let text = encode_line(sequence, command);
        self.next_sequence = sequence + 1;
        Some(LogLine { sequence, text })
    }

    /// The line for a mutation received from the shard's owner, under the
    /// owner's sequence number, written as given: the local counter is not
    /// touched, and a gap in the owner's numbers is neither detected nor
    /// filled (a replica that fell behind catches up from the snapshot it
    /// gets when it connects again).
    pub fn replicated_append(&mut self, command: &Command, sequence: usize) -> (r: LogLine)
        requires
            storable(command@),
        ensures
            *final(self) == *old(self),
            r.sequence == sequence,
            r.text@ == encode_record(sequence as nat, command@),
    {
        LogLine { sequence, text: encode_line(sequence, command) }
    }

    /// The name of the backing file.
    pub fn filename(&self) -> (r: &String)
        ensures
            r@ == self.spec_filename(),
    {
        &self.filename
    }
}

impl KV {
    /// The store rebuilt by replaying the log lines `lines` from the first to
    /// the last.
    pub fn init_from_log_lines(lines: &Vec<String>) -> (kv: KV)
        ensures
            kv.wf(),
            kv@ == replay(texts(lines@)),
    {
        let ghost all = texts(lines@);
        let mut kv = KV::new(Vec::new());
        proof {
            assert(crate::store::pairs_map(Seq::empty()) == Map::<Seq<char>, Seq<char>>::empty());
        }
        let mut i: usize = 0;
        while i < lines.len()
            invariant
                0 <= i <= lines.len(),
                all == texts(lines@),
                kv.wf(),
                kv@ == replay(all.take(i as int)),
            decreases lines.len() - i,
        {
            assert(all.take(i + 1).drop_last() =~= all.take(i as int));
            assert(all.take(i + 1).last() == lines@[i as int]@);
            match decode_line(lines[i].as_str()) {
                Some((_, command)) => kv.apply(&command),
                None => {},
            }
            i = i + 1;
        }
        assert(all.take(lines.len() as int) =~= all);
        kv
    }
}

proof fn lemma_recovered_next_grows(lines: Seq<Seq<char>>, i: int)
    requires
        0 <= i <= lines.len(),
    ensures
        recovered_next(lines.take(i)) <= recovered_next(lines),
    decreases lines.len() - i,
{
    if i < lines.len() {
        lemma_recovered_next_grows(lines, i + 1);
        assert(lines.take(i + 1).drop_last() =~= lines.take(i));
    } else {
        assert(lines.take(i) =~= lines);
    }
}

/// Replaying a log that first holds `lines` and then the records written for
/// `ops` gives the store of `lines` with `ops` applied in order.
pub proof fn lemma_replay_extends(lines: Seq<Seq<char>>, ops: Seq<CommandView>, start: nat)
    requires
        all_storable(ops),
        start + ops.len() <= usize::MAX + 1,
    ensures
        replay(lines + encode_all(ops, start)) == apply_commands(replay(lines), ops),
    decreases ops.len(),
{
    if ops.len() == 0 {
        assert(lines + encode_all(ops, start) =~= lines);
    } else {
        let k = ops.len() - 1;
        let shorter = ops.drop_last();
        lemma_replay_extends(lines, shorter, start);
        let all = lines + encode_all(ops, start);
        assert(all.drop_last() =~= lines + encode_all(shorter, start));
        assert(all.last() == encode_record((start + k) as nat, ops[k]));
        assert(storable(ops[k]));
        crate::codec::lemma_record_round_trip((start + k) as nat, ops[k]);
    }
}

/// Log replay reproduces the store: applying a run of mutations to an empty
/// store gives the same store as replaying, from scratch, the lines an empty
/// log wrote for them.
pub proof fn lemma_replay_matches_direct_application(ops: Seq<CommandView>, start: nat)
    requires
        all_storable(ops),
        start + ops.len() <= usize::MAX + 1,
    ensures
        replay(encode_all(ops, start)) == apply_commands(Map::empty(), ops),
{
    lemma_replay_extends(Seq::empty(), ops, start);
    assert(Seq::<Seq<char>>::empty() + encode_all(ops, start) =~= encode_all(ops, start));
}

/// Sequence numbers of local appends strictly increase, and a log recovered
/// after they were written resumes one past the last of them: the records
/// written for `ops` after recovering from `lines` carry increasing numbers,
/// and recovering again from the longer log continues right after them.
pub proof fn lemma_restart_resumes_after_last(lines: Seq<Seq<char>>, ops: Seq<CommandView>)
    requires
        all_storable(ops),
        recovered_next(lines) + ops.len() <= usize::MAX + 1,
    ensures
        ({
            let start = recovered_next(lines);
            let written = encode_all(ops, start);
            &&& forall|i: int, j: int|
                0 <= i < j < ops.len() ==> (#[trigger] decode_record(written[i])).unwrap().0 < (
                #[trigger] decode_record(written[j])).unwrap().0
            &&& recovered_next(lines + written) == start + ops.len()
        }),
{
    let start = recovered_next(lines);
    let written = encode_all(ops, start);
    assert forall|i: int| 0 <= i < ops.len() implies #[trigger] decode_record(written[i]) == Some(
        ((start + i) as nat, ops[i]),
    ) by {
        assert(storable(ops[i]));
        crate::codec::lemma_record_round_trip((start + i) as nat, ops[i]);
    }
    lemma_recovery_counts(lines, ops, start);
}

proof fn lemma_recovery_counts(lines: Seq<Seq<char>>, ops: Seq<CommandView>, start: nat)
    requires
        all_storable(ops),
        start == recovered_next(lines),
        start + ops.len() <= usize::MAX + 1,
    ensures
        recovered_next(lines + encode_all(ops, start)) == start + ops.len(),
    decreases ops.len(),
{
    if ops.len() == 0 {
        assert(lines + encode_all(ops, start) =~= lines);
    } else {
        let k = ops.len() - 1;
        let shorter = ops.drop_last();
        lemma_recovery_counts(lines, shorter, start);
        let all = lines + encode_all(ops, start);
        assert(all.drop_last() =~= lines + encode_all(shorter, start));
        assert(all.last() == encode_record((start + k) as nat, ops[k]));
        assert(storable(ops[k]));
        crate::codec::lemma_record_round_trip((start + k) as nat, ops[k]);
    }
}

} // verus!
