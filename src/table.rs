//! The frequency table: how many lines carried each key.
use std::collections::HashMap;
use vstd::prelude::*;
use vstd::std_specs::hash::spec_hash_map_iter;
use vstd::std_specs::iter::IteratorSpec;
use crate::line::{StateEntry, parse_line};

verus! {

broadcast use vstd::std_specs::hash::group_hash_axioms;

/// Two to the 64th: the factor that moves a region id above the topic id.
pub const KEY_SHIFT: u128 = 0x1_0000_0000_0000_0000;

/// The integer under which a key is stored: region id in the high half, topic
/// id in the low half.
pub open spec fn key_code(e: StateEntry) -> u128 {
    (e.region_id as int * KEY_SHIFT as int + e.topic_id as int) as u128
}

pub open spec fn key_of_code(k: u128) -> StateEntry {
    StateEntry {
        region_id: (k as int / KEY_SHIFT as int) as u64,
        topic_id: (k as int % KEY_SHIFT as int) as u64,
    }
}

proof fn lemma_code_round_trip(e: StateEntry)
    ensures
        key_of_code(key_code(e)) == e,
{
    let r = e.region_id as int;
    let t = e.topic_id as int;
    assert(0 <= r * 0x1_0000_0000_0000_0000 + t < 0x1_0000_0000_0000_0000_0000_0000_0000_0000)
        by (nonlinear_arith)
        requires
            0 <= r < 0x1_0000_0000_0000_0000,
            0 <= t < 0x1_0000_0000_0000_0000,
    ;
    vstd::arithmetic::div_mod::lemma_fundamental_div_mod_converse(
        r * 0x1_0000_0000_0000_0000 + t,
        0x1_0000_0000_0000_0000,
        r,
        t,
    );
}

proof fn lemma_key_round_trip(k: u128)
    ensures
        key_code(key_of_code(k)) == k,
{
    let n = k as int;
    let q = n / 0x1_0000_0000_0000_0000;
    let m = n % 0x1_0000_0000_0000_0000;
    vstd::arithmetic::div_mod::lemma_fundamental_div_mod(n, 0x1_0000_0000_0000_0000);
    assert(0 <= q < 0x1_0000_0000_0000_0000) by (nonlinear_arith)
        requires
            0 <= n < 0x1_0000_0000_0000_0000_0000_0000_0000_0000,
            n == 0x1_0000_0000_0000_0000 * q + m,
            0 <= m < 0x1_0000_0000_0000_0000,
    ;
}

fn encode_key(e: StateEntry) -> (k: u128)
    ensures
        k == key_code(e),
{
    let r = e.region_id as u128;
    let t = e.topic_id as u128;
    assert(r * KEY_SHIFT + t <= u128::MAX) by (nonlinear_arith)
        requires
            r <= u64::MAX,
            t <= u64::MAX,
            KEY_SHIFT == 0x1_0000_0000_0000_0000u128,
    ;
    r * KEY_SHIFT + t
}

fn decode_key(k: u128) -> (e: StateEntry)
    ensures
        e == key_of_code(k),
{
    proof {
        lemma_key_round_trip(k);
    }
    StateEntry { region_id: (k / KEY_SHIFT) as u64, topic_id: (k % KEY_SHIFT) as u64 }
}

/// The count of `e` in `m`: zero where `e` is absent.
pub open spec fn count_of(m: Map<StateEntry, u64>, e: StateEntry) -> nat {
    if m.contains_key(e) {
        m[e] as nat
    } else {
        0
    }
}

/// Finitely many keys, each counted at least once and at most `total` times.
pub open spec fn counts_within(m: Map<StateEntry, u64>, total: u64) -> bool {
    &&& m.dom().finite()
    &&& forall|e: StateEntry| #[trigger] m.contains_key(e) ==> 1 <= m[e] <= total
}

/// The table after one line: a line that parses adds one to its key's count,
/// another line leaves the table as it was.
pub open spec fn after_line(m: Map<StateEntry, u64>, line: Seq<char>) -> Map<StateEntry, u64> {
    match parse_line(line) {
        Some(e) => m.insert(e, (count_of(m, e) + 1) as u64),
        None => m,
    }
}

/// The table after the given lines, from an empty one.
pub open spec fn tally(lines: Seq<Seq<char>>) -> Map<StateEntry, u64>
    decreases lines.len(),
{
    if lines.len() == 0 {
        Map::empty()
    } else {
        after_line(tally(lines.drop_last()), lines.last())
    }
}

/// How many of the lines parse to `e`.
pub open spec fn lines_parsing_to(lines: Seq<Seq<char>>, e: StateEntry) -> nat
    decreases lines.len(),
{
    if lines.len() == 0 {
        0
    } else {
        lines_parsing_to(lines.drop_last(), e) + if parse_line(lines.last()) == Some(e) {
            1nat
        } else {
            0nat
        }
    }
}

/// One pass over the lines counts each key once per line that parses to it:
/// however the lines are ordered, the final count of a key is the number of
/// lines that carry it.
pub proof fn lemma_tally_counts_lines(lines: Seq<Seq<char>>, e: StateEntry)
    requires
        lines.len() <= u64::MAX,
    ensures
        count_of(tally(lines), e) == lines_parsing_to(lines, e),
        tally(lines).contains_key(e) <==> lines_parsing_to(lines, e) > 0,
    decreases lines.len(), 1nat,
{
    if lines.len() > 0 {
        let p = lines.drop_last();
        lemma_tally_counts_lines(p, e);
        lemma_count_bounded(p, e);
    }
    lemma_tally_positive(lines);
}

proof fn lemma_tally_positive(lines: Seq<Seq<char>>)
    requires
        lines.len() <= u64::MAX,
    ensures
        forall|k: StateEntry| #[trigger] tally(lines).contains_key(k) ==> tally(lines)[k] >= 1,
    decreases lines.len(), 0nat,
{
    if lines.len() > 0 {
        let p = lines.drop_last();
        lemma_tally_positive(p);
        assert(tally(lines) == after_line(tally(p), lines.last()));
        if let Some(k) = parse_line(lines.last()) {
            lemma_tally_counts_lines(p, k);
            lemma_count_bounded(p, k);
            let n = count_of(tally(p), k) + 1;
            assert(1 <= n <= u64::MAX);
            assert(tally(lines) == tally(p).insert(k, n as u64));
            assert forall|x: StateEntry| #[trigger] tally(lines).contains_key(x) implies tally(
                lines,
            )[x] >= 1 by {
                if x != k {
                    assert(tally(p).contains_key(x));
                }
            }
        }
    }
}

/// The order of two lines does not matter: counting `a` then `b` gives the
/// same table as counting `b` then `a`.
pub proof fn lemma_line_order_irrelevant(m: Map<StateEntry, u64>, a: Seq<char>, b: Seq<char>)
    ensures
        after_line(after_line(m, a), b) == after_line(after_line(m, b), a),
{
    let ab = after_line(after_line(m, a), b);
    let ba = after_line(after_line(m, b), a);
    if let (Some(ka), Some(kb)) = (parse_line(a), parse_line(b)) {
        if ka != kb {
            assert(ab =~= ba);
        }
    }
}

/// Whatever tables a run passes through, one line at a time from an empty table,
/// the last one counts each key once per line that parsed to it.
pub proof fn lemma_counts_follow_lines(
    lines: Seq<Seq<char>>,
    tables: Seq<Map<StateEntry, u64>>,
    e: StateEntry,
)
    requires
        lines.len() <= u64::MAX,
        tables.len() == lines.len() + 1,
        tables[0] == Map::<StateEntry, u64>::empty(),
        forall|i: int|
            0 <= i < lines.len() ==> #[trigger] tables[i + 1] == after_line(tables[i], lines[i]),
    ensures
        count_of(tables.last(), e) == lines_parsing_to(lines, e),
        tables.last().contains_key(e) <==> lines_parsing_to(lines, e) > 0,
{
    assert forall|i: int| 0 <= i <= lines.len() implies #[trigger] tables[i] == tally(
        lines.take(i),
    ) by {
        lemma_tables_are_tallies(lines, tables, i);
    }
    assert(lines.take(lines.len() as int) == lines);
    lemma_tally_counts_lines(lines, e);
}

proof fn lemma_tables_are_tallies(
    lines: Seq<Seq<char>>,
    tables: Seq<Map<StateEntry, u64>>,
    i: int,
)
    requires
        0 <= i <= lines.len(),
        tables.len() == lines.len() + 1,
        tables[0] == Map::<StateEntry, u64>::empty(),
        forall|j: int|
            0 <= j < lines.len() ==> #[trigger] tables[j + 1] == after_line(tables[j], lines[j]),
    ensures
        tables[i] == tally(lines.take(i)),
    decreases i,
{
    if i > 0 {
        lemma_tables_are_tallies(lines, tables, i - 1);
        assert(lines.take(i).drop_last() == lines.take(i - 1));
        assert(tables[(i - 1) + 1] == after_line(tables[i - 1], lines[i - 1]));
    }
}

proof fn lemma_count_bounded(lines: Seq<Seq<char>>, e: StateEntry)
    ensures
        lines_parsing_to(lines, e) <= lines.len(),
    decreases lines.len(),
{
    if lines.len() > 0 {
        lemma_count_bounded(lines.drop_last(), e);
    }
}

/// `s` lists each entry of `m` exactly once, in some order.
pub open spec fn drained_from(m: Map<StateEntry, u64>, s: Seq<(StateEntry, u64)>) -> bool {
    &&& s.len() == m.dom().len()
    &&& forall|i: int| 0 <= i < s.len() ==> m.contains_key(#[trigger] s[i].0) && m[s[i].0] == s[i].1
    &&& forall|i: int, j: int| 0 <= i < j < s.len() ==> #[trigger] s[i].0 != #[trigger] s[j].0
    &&& forall|e: StateEntry| #[trigger]
        m.contains_key(e) ==> exists|i: int| 0 <= i < s.len() && #[trigger] s[i].0 == e
}

/// Counts per key, held under the integer code of each key.
pub struct FrequencyTable {
    counts: HashMap<u128, u64>,
    total: u64,
}

impl FrequencyTable {
    /// The count of each key that has been seen.
    pub closed spec fn view(&self) -> Map<StateEntry, u64> {
        Map::new(
            |e: StateEntry| self.counts@.contains_key(key_code(e)),
            |e: StateEntry| self.counts@[key_code(e)],
        )
    }

    /// How many lines have been counted.
    pub closed spec fn spec_total(&self) -> u64 {
        self.total
    }

    /// Every count is at least one and at most the number of lines counted.
    pub closed spec fn wf(&self) -> bool {
        forall|k: u128| #[trigger]
            self.counts@.contains_key(k) ==> 1 <= self.counts@[k] <= self.total
    }

    pub fn new() -> (r: FrequencyTable)
        ensures
            r.wf(),
            r@ == Map::<StateEntry, u64>::empty(),
            r.spec_total() == 0,
            counts_within(r@, r.spec_total()),
    {
        let r = FrequencyTable { counts: HashMap::new(), total: 0 };
        assert(r@ =~= Map::<StateEntry, u64>::empty());
        r
    }

    /// The count of `e`: zero for a key never seen.
    pub fn count(&self, e: StateEntry) -> (r: u64)
        ensures
            r == count_of(self@, e),
    {
        let k = encode_key(e);
        proof {
            lemma_code_round_trip(e);
        }
        match self.counts.get(&k) {
            Some(c) => *c,
            None => 0,
        }
    }

    /// The number of distinct keys.
    pub fn len(&self) -> (r: usize)
        ensures
            r == self@.dom().len(),
    {
        proof {
            self.lemma_view_len();
        }
        self.counts.len()
    }

    /// How many lines have been counted.
    pub fn total(&self) -> (r: u64)
        ensures
            r == self.spec_total(),
    {
        self.total
    }

    proof fn lemma_view_len(&self)
        ensures
            self@.dom().finite(),
            self@.dom().len() == self.counts@.dom().len(),
    {
        let codes = self.counts@.dom();
        assert forall|a: u128, b: u128|
            codes.contains(a) && codes.contains(b) && #[trigger] key_of_code(a) == #[trigger] key_of_code(b)
            implies a == b by {
            lemma_key_round_trip(a);
            lemma_key_round_trip(b);
        }
        assert forall|e: StateEntry| #[trigger] self@.dom().contains(e) == codes.map(|k: u128| key_of_code(k)).contains(e) by {
            lemma_code_round_trip(e);
            if codes.map(|k: u128| key_of_code(k)).contains(e) {
                let a = choose|a: u128| codes.contains(a) && e == key_of_code(a);
                lemma_key_round_trip(a);
            }
        }
        assert(self@.dom() =~= codes.map(|k: u128| key_of_code(k)));
        vstd::set_lib::lemma_map_size(codes, self@.dom(), |k: u128| key_of_code(k));
    }

    /// A well-formed table has finitely many keys, each counted at least once and
    /// at most as many times as lines were counted.
    pub proof fn lemma_counts_within(&self)
        requires
            self.wf(),
        ensures
            counts_within(self@, self.spec_total()),
    {
        self.lemma_view_len();
        assert forall|e: StateEntry| #[trigger] self@.contains_key(e) implies 1 <= self@[e]
            <= self.total by {
            assert(self.counts@.contains_key(key_code(e)));
        }
    }

    /// Hands out every entry of the table once, in no particular order, and
    /// gives the table up.
    pub fn drain(self) -> (r: Vec<(StateEntry, u64)>)
        requires
            self.wf(),
        ensures
            drained_from(self@, r@),
            forall|i: int| 0 <= i < r.len() ==> #[trigger] r[i].1 >= 1,
    {
        let ghost v = spec_hash_map_iter(&self.counts).remaining();
        let mut out: Vec<(StateEntry, u64)> = Vec::new();
        for kv in it: self.counts.iter()
            invariant
                self.wf(),
                it.seq() == v,
                v == spec_hash_map_iter(&self.counts).remaining(),
                out.len() == it.index(),
                forall|i: int|
                    0 <= i < it.index() ==> #[trigger] out[i] == (key_of_code(*v[i].0), *v[i].1),
        {
            let (k, v) = kv;
            out.push((decode_key(*k), *v));
        }
        proof {
            self.lemma_view_len();
            assert(out.len() == v.len());
            assert forall|i: int| 0 <= i < out.len() implies self@.contains_key(#[trigger] out[i].0)
                && self@[out[i].0] == out[i].1 by {
                lemma_key_round_trip(*v[i].0);
            }
            assert forall|i: int, j: int| 0 <= i < j < out.len() implies #[trigger] out[i].0
                != #[trigger] out[j].0 by {
                lemma_key_round_trip(*v[i].0);
                lemma_key_round_trip(*v[j].0);
                if out[i].0 == out[j].0 {
                    assert(v[i] == v[j]);
                }
            }
            assert forall|e: StateEntry| #[trigger] self@.contains_key(e) implies exists|i: int|
                0 <= i < out.len() && #[trigger] out[i].0 == e by {
                let k = key_code(e);
                assert(self.counts@.contains_key(k));
                assert(v.contains((&k, &self.counts@[k])));
                let i = choose|i: int| 0 <= i < v.len() && v[i] == (&k, &self.counts@[k]);
                lemma_code_round_trip(e);
                assert(out[i].0 == e);
            }
            assert forall|i: int| 0 <= i < out.len() implies #[trigger] out[i].1 >= 1 by {
                assert(self.counts@.contains_key(*v[i].0));
            }
        }
        out
    }

    /// Adds one to the count of `e`, which starts at one for a new key.
    pub fn increment(&mut self, e: StateEntry)
        requires
            old(self).wf(),
            old(self).spec_total() < u64::MAX,
        ensures
            final(self).wf(),
            final(self)@ == old(self)@.insert(e, (count_of(old(self)@, e) + 1) as u64),
            final(self).spec_total() == old(self).spec_total() + 1,
            counts_within(final(self)@, final(self).spec_total()),
    {
        let k = encode_key(e);
        let n: u64 = match self.counts.get(&k) {
            Some(c) => *c + 1,
            None => 1,
        };
        self.counts.insert(k, n);
        self.total = self.total + 1;
        proof {
            let target = old(self)@.insert(e, (count_of(old(self)@, e) + 1) as u64);
            assert forall|x: StateEntry| #![auto] self@.contains_key(x) == target.contains_key(x)
                && (self@.contains_key(x) ==> self@[x] == target[x]) by {
                if x != e {
                    lemma_code_round_trip(x);
                    lemma_code_round_trip(e);
                }
            }
            assert(self@ =~= target);
            self.lemma_counts_within();
        }
    }
}

/// Counts the key that `line` carries. A line that does not parse leaves the
/// table as it was and is reported as an error.
pub fn update_occurence(line: &str, occurence: &mut FrequencyTable) -> (r: Result<(), UnableToParseError>)
    requires
        old(occurence).wf(),
        old(occurence).spec_total() < u64::MAX,
    ensures
        final(occurence).wf(),
        final(occurence)@ == after_line(old(occurence)@, line@),
        r is Ok <==> parse_line(line@) is Some,
        final(occurence).spec_total() == old(occurence).spec_total() + if r is Ok { 1int } else { 0int },
        counts_within(final(occurence)@, final(occurence).spec_total()),
        old(occurence)@.dom().subset_of(final(occurence)@.dom()),
        forall|e: StateEntry| #[trigger]
            old(occurence)@.contains_key(e) ==> final(occurence)@[e] >= old(occurence)@[e],
{
    proof {
        occurence.lemma_counts_within();
    }
    let r = match StateEntry::new_from_str(line) {
        Some(entry) => {
            occurence.increment(entry);
            Ok(())
        },
        None => Err(UnableToParseError),
    };
    proof {
        occurence.lemma_counts_within();
    }
    r
}

/// A line that does not have the layout of a log record.
#[derive(Debug, Clone, Copy, PartialEq, Eq, Structural)]
pub struct UnableToParseError;

} // verus!
