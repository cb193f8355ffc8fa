//! The run as a whole: lines in, the table kept, the report out.

use crate::parse::{line_outcome, process_line, ParseError};
use crate::report::{report_text, write_results, Figures};
use crate::table::{assign, is_ordering, listing, StationTable};
use vstd::prelude::*;

verus! {

/// The table after one more line: unchanged by an empty line, with the
/// station of the record in it after a well-formed one.
pub open spec fn fold_line(m: Map<Seq<u8>, nat>, line: Seq<u8>) -> Result<
    Map<Seq<u8>, nat>,
    ParseError,
> {
    match line_outcome(line) {
        Err(e) => Err(e),
        Ok(None) => Ok(m),
        Ok(Some((name, text))) => Ok(assign(m, name)),
    }
}

/// The table after all the lines, or the error of the first malformed one.
pub open spec fn fold_lines(lines: Seq<Seq<u8>>) -> Result<Map<Seq<u8>, nat>, ParseError>
    decreases lines.len(),
{
    if lines.len() == 0 {
        Ok(Map::empty())
    } else {
        match fold_lines(lines.drop_last()) {
            Err(e) => Err(e),
            Ok(m) => fold_line(m, lines.last()),
        }
    }
}

/// The lines as sequences of bytes.
pub open spec fn texts(lines: Seq<Vec<u8>>) -> Seq<Seq<u8>> {
    Seq::new(lines.len(), |i: int| lines[i]@)
}

/// What is to be done with a line that was taken in: nothing for an empty
/// line, else the measurement written in `text` starts the statistic of the
/// slot, where the station is new, or is added to it.
pub open spec fn step_of(m: Map<Seq<u8>, nat>, line: Seq<u8>) -> Option<(nat, bool, Seq<u8>)> {
    match line_outcome(line) {
        Ok(Some((name, text))) => Some((assign(m, name)[name], !m.contains_key(name), text)),
        _ => None,
    }
}

/// An error among the first lines is the error of the whole input.
pub proof fn lemma_error_stays(lines: Seq<Seq<u8>>, k: int)
    requires
        0 <= k <= lines.len(),
        fold_lines(lines.take(k)) is Err,
    ensures
        fold_lines(lines) == fold_lines(lines.take(k)),
    decreases lines.len(),
{
    if k == lines.len() {
        assert(lines.take(k) =~= lines);
    } else {
        assert(lines.drop_last().take(k) =~= lines.take(k));
        lemma_error_stays(lines.drop_last(), k);
    }
}

/// A station that is in the table keeps its slot when a line is folded.
pub proof fn lemma_slot_stays(m: Map<Seq<u8>, nat>, line: Seq<u8>, name: Seq<u8>)
    requires
        fold_line(m, line) is Ok,
        m.contains_key(name),
    ensures
        fold_line(m, line).unwrap().contains_key(name),
        fold_line(m, line).unwrap()[name] == m[name],
{
}

/// The line holds a record of the station `name`.
pub open spec fn names_station(line: Seq<u8>, name: Seq<u8>) -> bool {
    line_outcome(line) is Ok && line_outcome(line).unwrap() is Some && line_outcome(
        line,
    ).unwrap().unwrap().0 == name
}

/// The lines can be folded if and only if none of them is malformed.
pub proof fn lemma_no_malformed_line(lines: Seq<Seq<u8>>)
    ensures
        fold_lines(lines) is Ok <==> forall|i: int|
            0 <= i < lines.len() ==> line_outcome(#[trigger] lines[i]) is Ok,
    decreases lines.len(),
{
    if lines.len() > 0 {
        let shorter = lines.drop_last();
        lemma_no_malformed_line(shorter);
        if fold_lines(lines) is Ok {
            assert forall|i: int| 0 <= i < lines.len() implies line_outcome(
                #[trigger] lines[i],
            ) is Ok by {
                if i < lines.len() - 1 {
                    assert(shorter[i] == lines[i]);
                }
            }
        } else if fold_lines(shorter) is Ok {
            assert(line_outcome(lines[lines.len() - 1]) is Err);
        } else {
            let i = choose|i: int| 0 <= i < shorter.len() && !(line_outcome(
                #[trigger] shorter[i],
            ) is Ok);
            assert(lines[i] == shorter[i]);
        }
    }
}

/// The table holds the stations that have a record among the lines, and no
/// others.
pub proof fn lemma_stations_of_lines(lines: Seq<Seq<u8>>, name: Seq<u8>)
    requires
        fold_lines(lines) is Ok,
    ensures
        fold_lines(lines).unwrap().contains_key(name) <==> exists|i: int|
            0 <= i < lines.len() && names_station(#[trigger] lines[i], name),
    decreases lines.len(),
{
    if lines.len() > 0 {
        let shorter = lines.drop_last();
        let last = lines.len() - 1;
        lemma_stations_of_lines(shorter, name);
        if fold_lines(lines).unwrap().contains_key(name) {
            if fold_lines(shorter).unwrap().contains_key(name) {
                let i = choose|i: int|
                    0 <= i < shorter.len() && names_station(#[trigger] shorter[i], name);
                assert(names_station(lines[i], name));
            } else {
                assert(names_station(lines[last], name));
            }
        }
        if exists|i: int| 0 <= i < lines.len() && names_station(#[trigger] lines[i], name) {
            let i = choose|i: int| 0 <= i < lines.len() && names_station(#[trigger] lines[i], name);
            if i < last {
                assert(names_station(shorter[i], name));
            }
        }
    }
}

/// The table does not depend on the order of the lines but for the slots:
/// two inputs with the same lines, each as often in one as in the other,
/// are both without malformed lines or both not, and give the same stations.
pub proof fn lemma_order_of_lines(first: Seq<Seq<u8>>, second: Seq<Seq<u8>>)
    requires
        first.to_multiset() == second.to_multiset(),
    ensures
        fold_lines(first) is Ok <==> fold_lines(second) is Ok,
        fold_lines(first) is Ok ==> fold_lines(first).unwrap().dom() == fold_lines(
            second,
        ).unwrap().dom(),
{
    first.to_multiset_ensures();
    second.to_multiset_ensures();
    lemma_no_malformed_line(first);
    lemma_no_malformed_line(second);
    assert forall|a: Seq<Seq<u8>>, b: Seq<Seq<u8>>|
        a.to_multiset() == b.to_multiset() && (forall|i: int|
            0 <= i < a.len() ==> line_outcome(#[trigger] a[i]) is Ok) implies (forall|i: int|
        0 <= i < b.len() ==> line_outcome(#[trigger] b[i]) is Ok) by {
        a.to_multiset_ensures();
        b.to_multiset_ensures();
        assert forall|i: int| 0 <= i < b.len() implies line_outcome(#[trigger] b[i]) is Ok by {
            assert(b.contains(b[i]));
            assert(b.to_multiset().count(b[i]) > 0);
            assert(a.contains(b[i]));
            let j = choose|j: int| 0 <= j < a.len() && a[j] == b[i];
            assert(line_outcome(a[j]) is Ok);
        }
    }
    if fold_lines(first) is Ok {
        let m = fold_lines(first).unwrap();
        let n = fold_lines(second).unwrap();
        assert forall|name: Seq<u8>| m.contains_key(name) == n.contains_key(name) by {
            lemma_stations_of_lines(first, name);
            lemma_stations_of_lines(second, name);
            if m.contains_key(name) {
                let i = choose|i: int|
                    0 <= i < first.len() && names_station(#[trigger] first[i], name);
                assert(first.contains(first[i]));
                assert(first.to_multiset().count(first[i]) > 0);
                assert(second.contains(first[i]));
                let j = choose|j: int| 0 <= j < second.len() && second[j] == first[i];
                assert(names_station(second[j], name));
            }
            if n.contains_key(name) {
                let i = choose|i: int|
                    0 <= i < second.len() && names_station(#[trigger] second[i], name);
                assert(second.contains(second[i]));
                assert(second.to_multiset().count(second[i]) > 0);
                assert(first.contains(second[i]));
                let j = choose|j: int| 0 <= j < first.len() && first[j] == second[i];
                assert(names_station(first[j], name));
            }
        }
        assert(m.dom() =~= n.dom());
    }
}

/// In the table of any lines each slot is below the number of stations, and
/// no two stations share a slot.
pub proof fn lemma_table_slots(lines: Seq<Seq<u8>>)
    requires
        fold_lines(lines) is Ok,
    ensures
        fold_lines(lines).unwrap().dom().finite(),
        forall|k: Seq<u8>|
            fold_lines(lines).unwrap().contains_key(k) ==> #[trigger] fold_lines(
                lines,
            ).unwrap()[k] < fold_lines(lines).unwrap().dom().len(),
        forall|k: Seq<u8>, l: Seq<u8>|
            fold_lines(lines).unwrap().contains_key(k) && fold_lines(lines).unwrap().contains_key(
                l,
            ) && k != l ==> #[trigger] fold_lines(lines).unwrap()[k] != #[trigger] fold_lines(
                lines,
            ).unwrap()[l],
    decreases lines.len(),
{
    if lines.len() > 0 {
        lemma_table_slots(lines.drop_last());
    }
}

/// The slot handed back for a record is the slot that its station has in
/// the table after all the lines.
pub proof fn lemma_slot_of_line(lines: Seq<Seq<u8>>, i: int, name: Seq<u8>)
    requires
        fold_lines(lines) is Ok,
        0 <= i < lines.len(),
        names_station(lines[i], name),
    ensures
        fold_lines(lines.take(i)) is Ok,
        step_of(fold_lines(lines.take(i)).unwrap(), lines[i]) is Some,
        fold_lines(lines).unwrap().contains_key(name),
        step_of(fold_lines(lines.take(i)).unwrap(), lines[i]).unwrap().0 == fold_lines(
            lines,
        ).unwrap()[name],
    decreases lines.len(),
{
    let shorter = lines.drop_last();
    if i == lines.len() - 1 {
        assert(lines.take(i) =~= shorter);
    } else {
        assert(shorter.take(i) =~= lines.take(i));
        lemma_slot_of_line(shorter, i, name);
        lemma_slot_stays(fold_lines(shorter).unwrap(), lines.last(), name);
    }
}

/// Two records are handed the same slot if and only if they are of the same
/// station.
pub proof fn lemma_same_station_same_slot(
    lines: Seq<Seq<u8>>,
    i: int,
    j: int,
    first: Seq<u8>,
    second: Seq<u8>,
)
    requires
        fold_lines(lines) is Ok,
        0 <= i < lines.len(),
        0 <= j < lines.len(),
        names_station(lines[i], first),
        names_station(lines[j], second),
    ensures
        (step_of(fold_lines(lines.take(i)).unwrap(), lines[i]).unwrap().0 == step_of(
            fold_lines(lines.take(j)).unwrap(),
            lines[j],
        ).unwrap().0) == (first == second),
{
    lemma_slot_of_line(lines, i, first);
    lemma_slot_of_line(lines, j, second);
    lemma_table_slots(lines);
}

/// A run in progress: the table so far and the number of lines taken in.
#[derive(Debug)]
pub struct Pipeline {
    table: StationTable,
    lines: u64,
}

impl Pipeline {
    /// The table is well formed, and there are no more stations than lines
    /// were taken in.
    pub closed spec fn wf(&self) -> bool {
        &&& self.table.wf()
        &&& self.table@.dom().finite()
        &&& self.table@.dom().len() <= self.lines
    }

    /// The table so far: the slot of each station.
    pub closed spec fn table(&self) -> Map<Seq<u8>, nat> {
        self.table@
    }

    /// The number of lines taken in so far.
    pub closed spec fn lines_seen(&self) -> nat {
        self.lines as nat
    }

    /// There are no more stations than lines were taken in, each slot is
    /// below the number of stations, and no two stations share a slot.
    pub proof fn lemma_stations_within(&self)
        requires
            self.wf(),
        ensures
            self.table().dom().finite(),
            self.table().dom().len() <= self.lines_seen(),
            forall|k: Seq<u8>|
                self.table().contains_key(k) ==> #[trigger] self.table()[k]
                    < self.table().dom().len(),
            forall|k: Seq<u8>, l: Seq<u8>|
                self.table().contains_key(k) && self.table().contains_key(l) && k != l
                    ==> #[trigger] self.table()[k] != #[trigger] self.table()[l],
    {
        self.table.lemma_slots();
    }

    /// A run before its first line.
    pub fn new() -> (r: Pipeline)
        ensures
            r.wf(),
            r.table() == Map::<Seq<u8>, nat>::empty(),
            r.lines_seen() == 0,
    {
        Pipeline { table: StationTable::new(), lines: 0 }
    }

    /// Takes in one line. A malformed line is reported and leaves the run as
    /// it was. Any other line is counted; where it holds a record, its
    /// station is entered in the table, and the slot, whether the station is
    /// new, and the text of the measurement are handed back.
    pub fn feed<'a>(&mut self, line: &'a [u8]) -> (r: Result<Option<(usize, bool, &'a [u8])>, ParseError>)
        requires
            old(self).wf(),
            old(self).lines_seen() < u64::MAX,
        ensures
            final(self).wf(),
            match fold_line(old(self).table(), line@) {
                Ok(m) => {
                    &&& r is Ok
                    &&& final(self).table() == m
                    &&& final(self).lines_seen() == old(self).lines_seen() + 1
                    &&& match step_of(old(self).table(), line@) {
                        None => r.unwrap() is None,
                        Some((slot, fresh, text)) => r.unwrap() is Some && r.unwrap().unwrap().0
                            == slot && r.unwrap().unwrap().1 == fresh && r.unwrap().unwrap().2@
                            == text,
                    }
                },
                Err(e) => {
                    &&& r is Err
                    &&& r.unwrap_err() == e
                    &&& final(self).table() == old(self).table()
                    &&& final(self).lines_seen() == old(self).lines_seen()
                },
            },
    {
        match process_line(line) {
            Err(e) => Err(e),
            Ok(None) => {
                self.lines = self.lines + 1;
                Ok(None)
            },
            Ok(Some((name, text))) => {
                proof {
                    self.table.lemma_slots();
                }
                let (slot, fresh) = self.table.slot_of(name);
                proof {
                    self.table.lemma_slots();
                }
                self.lines = self.lines + 1;
                Ok(Some((slot, fresh, text)))
            },
        }
    }

    /// The number of lines taken in so far.
    pub fn lines(&self) -> (r: u64)
        ensures
            r == self.lines_seen(),
    {
        self.lines
    }

    /// The number of distinct stations so far.
    pub fn stations(&self) -> (r: usize)
        requires
            self.wf(),
        ensures
            self.table().dom().finite(),
            r == self.table().dom().len(),
    {
        self.table.len()
    }

    /// Appends the report of the table so far: the line of each station, in
    /// the order of the names, with the figures of the station's slot.
    pub fn finish(&self, figures: &[Figures], output: &mut Vec<u8>)
        requires
            self.wf(),
            figures@.len() >= self.table().dom().len(),
        ensures
            is_ordering(listing(self.table()), self.table()),
            final(output)@ == old(output)@ + report_text(listing(self.table()), figures@),
    {
        proof {
            self.table.lemma_slots();
        }
        let sorted_results = self.table.sort_results();
        write_results(sorted_results.as_slice(), figures, output);
    }
}

/// Takes in all the given lines. Where no line is malformed, the run after
/// the last line is returned, and for each line what is to be done with it.
/// Else the first malformed line's error is returned.
pub fn challenge<'a>(input: &'a [Vec<u8>]) -> (r: Result<
    (Pipeline, Vec<Option<(usize, bool, &'a [u8])>>),
    ParseError,
>)
    ensures
        match fold_lines(texts(input@)) {
            Ok(m) => {
                &&& r is Ok
                &&& r.unwrap().0.wf()
                &&& r.unwrap().0.table() == m
                &&& r.unwrap().0.lines_seen() == input@.len()
                &&& r.unwrap().1@.len() == input@.len()
                &&& forall|i: int|
                    0 <= i < input@.len() ==> match step_of(
                        fold_lines(texts(input@).take(i)).unwrap(),
                        input@[i]@,
                    ) {
                        None => (#[trigger] r.unwrap().1@[i]) is None,
                        Some((slot, fresh, text)) => r.unwrap().1@[i] is Some && r.unwrap().1@[i].unwrap().0
                            == slot && r.unwrap().1@[i].unwrap().1 == fresh
                            && r.unwrap().1@[i].unwrap().2@ == text,
                    }
            },
            Err(e) => r is Err && r.unwrap_err() == e,
        },
{
    let ghost all = texts(input@);
    let mut run = Pipeline::new();
    let mut steps: Vec<Option<(usize, bool, &'a [u8])>> = Vec::new();
    let mut i: usize = 0;
    assert(all.take(0) =~= Seq::<Seq<u8>>::empty());
    while i < input.len()
        invariant
            i <= input@.len(),
            all == texts(input@),
            run.wf(),
            run.lines_seen() == i,
            steps@.len() == i,
            fold_lines(all.take(i as int)) == Ok::<Map<Seq<u8>, nat>, ParseError>(run.table()),
            forall|j: int|
                0 <= j < i ==> match step_of(fold_lines(all.take(j)).unwrap(), input@[j]@) {
                    None => (#[trigger] steps@[j]) is None,
                    Some((slot, fresh, text)) => steps@[j] is Some && steps@[j].unwrap().0 == slot
                        && steps@[j].unwrap().1 == fresh && steps@[j].unwrap().2@ == text,
                },
        decreases input@.len() - i,
    {
        let ghost before = run.table();
        let fed = run.feed(input[i].as_slice());
        proof {
            let longer = all.take(i + 1);
            assert(longer.drop_last() =~= all.take(i as int));
            assert(longer.last() == input@[i as int]@);
            assert(fold_lines(longer) == fold_line(before, input@[i as int]@));
        }
        match fed {
            Err(e) => {
                proof {
                    lemma_error_stays(all, i + 1);
                }
                return Err(e);
            },
            Ok(step) => {
                steps.push(step);
            },
        }
        i = i + 1;
    }
    assert(all.take(i as int) =~= all);
    Ok((run, steps))
}

} // verus!
