//! Parsing one log line into the pair of identifiers it carries.
use vstd::prelude::*;

verus! {

/// The composite key of the frequency table: a region id and a topic id.
#[derive(PartialEq, Eq, Structural, Clone, Copy, Debug, Hash)]
pub struct StateEntry {
    pub region_id: u64,
    pub topic_id: u64,
}

/// Unicode white space, as `char::is_whitespace` decides it.
pub open spec fn is_space(c: char) -> bool {
    let u = c as u32;
    (9 <= u <= 13) || u == 32 || u == 0x85 || u == 0xA0 || u == 0x1680 || (0x2000 <= u <= 0x200A)
        || u == 0x2028 || u == 0x2029 || u == 0x202F || u == 0x205F || u == 0x3000
}

/// The maximal runs of non-space characters of `s`, in order.
pub open spec fn words(s: Seq<char>) -> Seq<Seq<char>>
    decreases s.len(),
{
    if s.len() == 0 {
        Seq::empty()
    } else {
        let p = s.drop_last();
        let c = s.last();
        let w = words(p);
        if is_space(c) {
            w
        } else if p.len() > 0 && !is_space(p.last()) {
            w.update(w.len() - 1, w.last().push(c))
        } else {
            w.push(seq![c])
        }
    }
}

pub open spec fn is_digit(c: char) -> bool {
    48 <= (c as u32) <= 57
}

/// The value of a string of decimal digits, most significant first.
pub open spec fn digits_value(s: Seq<char>) -> nat
    decreases s.len(),
{
    if s.len() == 0 {
        0
    } else {
        digits_value(s.drop_last()) * 10 + ((s.last() as u32) - 48) as nat
    }
}

/// The digits of a numeral: an optional leading `+` is dropped.
pub open spec fn unsigned_digits(s: Seq<char>) -> Seq<char> {
    if s.len() > 0 && s[0] == '+' {
        s.drop_first()
    } else {
        s
    }
}

pub open spec fn all_digits(d: Seq<char>) -> bool {
    forall|i: int| 0 <= i < d.len() ==> is_digit(#[trigger] d[i])
}

/// What `u64::from_str` gives: `Some` exactly for an optional `+` followed by at
/// least one ASCII digit, with a value that fits in 64 bits.
pub open spec fn parse_u64(s: Seq<char>) -> Option<u64> {
    let d = unsigned_digits(s);
    if d.len() > 0 && all_digits(d) && digits_value(d) <= u64::MAX {
        Some(digits_value(d) as u64)
    } else {
        None
    }
}

/// A line is a key when it has exactly six fields and the fifth and sixth are
/// unsigned 64-bit numerals (region id, then topic id).
pub open spec fn parse_line(s: Seq<char>) -> Option<StateEntry> {
    let w = words(s);
    if w.len() == 6 && parse_u64(w[4]) is Some && parse_u64(w[5]) is Some {
        Some(StateEntry { region_id: parse_u64(w[4])->0, topic_id: parse_u64(w[5])->0 })
    } else {
        None
    }
}

proof fn lemma_digits_value_grows(s: Seq<char>, j: int)
    requires
        0 <= j <= s.len(),
    ensures
        digits_value(s.take(j)) <= digits_value(s),
    decreases s.len() - j,
{
    if j < s.len() {
        lemma_digits_value_grows(s, j + 1);
        assert(s.take(j + 1).drop_last() == s.take(j));
    } else {
        assert(s.take(j) == s);
    }
}

fn is_space_char(c: char) -> (r: bool)
    ensures
        r == is_space(c),
{
    let u = c as u32;
    (9 <= u && u <= 13) || u == 32 || u == 0x85 || u == 0xA0 || u == 0x1680 || (0x2000 <= u && u
        <= 0x200A) || u == 0x2028 || u == 0x2029 || u == 0x202F || u == 0x205F || u == 0x3000
}

/// The characters of each word.
pub open spec fn word_views(v: Seq<Vec<char>>) -> Seq<Seq<char>> {
    v.map_values(|w: Vec<char>| w@)
}

/// Splits `s` at white space, as `str::split_whitespace` does.
pub fn split_words(s: &str) -> (r: Vec<Vec<char>>)
    ensures
        word_views(r@) == words(s@),
{
    let ghost text = s@;
    let mut done: Vec<Vec<char>> = Vec::new();
    let mut cur: Vec<char> = Vec::new();
    for c in it: s.chars()
        invariant
            it.seq() == text,
            0 <= it.index() <= text.len(),
            words(text.take(it.index() as int)) == if cur.len() > 0 {
                word_views(done@).push(cur@)
            } else {
                word_views(done@)
            },
            cur.len() > 0 <==> (it.index() > 0 && !is_space(text[it.index() - 1])),
    {
        let ghost i = it.index() as int;
        proof {
            assert(text.take(i + 1).drop_last() == text.take(i));
            assert(text.take(i + 1).last() == c);
            if i > 0 {
                assert(text.take(i).last() == text[i - 1]);
            }
        }
        let ghost before = word_views(done@);
        let ghost old_cur = cur@;
        if is_space_char(c) {
            if cur.len() > 0 {
                let w = cur;
                done.push(w);
                cur = Vec::new();
                assert(word_views(done@) =~= before.push(old_cur));
            }
        } else {
            cur.push(c);
            proof {
                if old_cur.len() > 0 {
                    let wv = before.push(old_cur);
                    assert(wv.update(wv.len() - 1, wv.last().push(c)) =~= before.push(cur@));
                } else {
                    assert(seq![c] =~= cur@);
                }
            }
        }
    }
    assert(text.take(text.len() as int) == text);
    if cur.len() > 0 {
        let ghost before = word_views(done@);
        let ghost last = cur@;
        done.push(cur);
        assert(word_views(done@) =~= before.push(last));
    }
    done
}

/// Reads an unsigned 64-bit decimal numeral, as `u64::from_str` does.
pub fn parse_u64_chars(s: &Vec<char>) -> (r: Option<u64>)
    ensures
        r == parse_u64(s@),
{
    let ghost d = unsigned_digits(s@);
    let start: usize = if s.len() > 0 && s[0] == '+' { 1 } else { 0 };
    assert(d == s@.subrange(start as int, s@.len() as int));
    if start >= s.len() {
        return None;
    }
    let mut value: u64 = 0;
    let mut j: usize = start;
    while j < s.len()
        invariant
            start <= j <= s.len(),
            d == s@.subrange(start as int, s@.len() as int),
            d == unsigned_digits(s@),
            forall|i: int| 0 <= i < j - start ==> is_digit(#[trigger] d[i]),
            value as nat == digits_value(d.take(j - start)),
        decreases s.len() - j,
    {
        let c = s[j];
        let u = c as u32;
        assert(d[j - start] == c);
        if !(48 <= u && u <= 57) {
            assert(!is_digit(d[j - start]));
            return None;
        }
        let ghost k = (j - start) as int;
        assert(d.take(k + 1).drop_last() == d.take(k));
        assert(d.take(k + 1).last() == c);
        let digit = (u - 48) as u64;
        assert(digits_value(d.take(k + 1)) == digits_value(d.take(k)) * 10 + digit);
        match value.checked_mul(10) {
            Some(v10) => match v10.checked_add(digit) {
                Some(v) => {
                    value = v;
                },
                None => {
                    proof {
                        lemma_digits_value_grows(d, k + 1);
                    }
                    return None;
                },
            },
            None => {
                proof {
                    lemma_digits_value_grows(d, k + 1);
                }
                return None;
            },
        }
        j = j + 1;
    }
    assert(d.take(d.len() as int) == d);
    Some(value)
}

impl StateEntry {
    pub fn new(region_id: u64, topic_id: u64) -> (r: StateEntry)
        ensures
            r == (StateEntry { region_id, topic_id }),
    {
        StateEntry { region_id, topic_id }
    }

    /// The key that a log line carries, or `None` for a malformed line.
    pub fn new_from_str(s: &str) -> (r: Option<StateEntry>)
        ensures
            r == parse_line(s@),
    {
        let v = split_words(s);
        if v.len() != 6 {
            return None;
        }
        assert(word_views(v@)[4] == v[4]@ && word_views(v@)[5] == v[5]@);
        let region_id = match parse_u64_chars(&v[4]) {
            Some(x) => x,
            None => return None,
        };
        let topic_id = match parse_u64_chars(&v[5]) {
            Some(x) => x,
            None => return None,
        };
        Some(StateEntry::new(region_id, topic_id))
    }
}

} // verus!
