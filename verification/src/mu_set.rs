//! The set of jump sizes a run may draw from: ascending, without
//! duplicates, none negative.

use vstd::prelude::*;
use crate::single::{eq, is_nan, less, lt, nan, same, ZERO};

verus! {

/// Why a list of jump sizes is refused.
#[derive(Clone, Copy, Debug, PartialEq, Eq)]
pub enum MuSetError {
    /// An entry is not a number in decimal notation.
    Malformed,
    /// An entry is below zero.
    Negative,
    /// An entry is a NaN.
    NotANumber,
    /// There is no entry at all.
    Empty,
}

/// Whether `v` may be a jump size: a number that is not below zero.
pub open spec fn admissible(v: u32) -> bool {
    !is_nan(v) && !less(v, ZERO)
}

/// Numbers only, strictly ascending, hence free of duplicates.
pub open spec fn ascending(s: Seq<u32>) -> bool {
    &&& forall|i: int| 0 <= i < s.len() ==> !is_nan(#[trigger] s[i])
    &&& forall|i: int, j: int| 0 <= i < j < s.len() ==> less(#[trigger] s[i], #[trigger] s[j])
}

/// Whether some element of `s` equals `v` as a number.
pub open spec fn holds_number(s: Seq<u32>, v: u32) -> bool {
    exists|i: int| 0 <= i < s.len() && same(#[trigger] s[i], v)
}

/// How many elements at the front of the ascending `s` are below `v`.
pub open spec fn below(s: Seq<u32>, v: u32) -> int
    decreases s.len(),
{
    if s.len() == 0 {
        0
    } else if less(s.last(), v) {
        s.len() as int
    } else {
        below(s.drop_last(), v)
    }
}

/// The ascending `s` with the number `v` put in its place, unless `s`
/// holds an equal number already.
pub open spec fn with_value(s: Seq<u32>, v: u32) -> Seq<u32> {
    if holds_number(s, v) {
        s
    } else {
        s.insert(below(s, v), v)
    }
}

/// The values in ascending order, the first of any that are equal as
/// numbers standing for them all.
pub open spec fn sorted_set(values: Seq<u32>) -> Seq<u32>
    decreases values.len(),
{
    if values.len() == 0 {
        Seq::empty()
    } else {
        with_value(sorted_set(values.drop_last()), values.last())
    }
}

/// In an ascending sequence the elements below `v` are exactly those in
/// front of position `below(s, v)`.
pub proof fn lemma_below(s: Seq<u32>, v: u32)
    requires
        ascending(s),
        !is_nan(v),
    ensures
        0 <= below(s, v) <= s.len(),
        forall|i: int| 0 <= i < below(s, v) ==> less(#[trigger] s[i], v),
        forall|i: int| below(s, v) <= i < s.len() ==> !less(#[trigger] s[i], v),
    decreases s.len(),
{
    if s.len() > 0 {
        if less(s.last(), v) {
            assert forall|i: int| 0 <= i < s.len() implies less(#[trigger] s[i], v) by {
                if i < s.len() - 1 {
                    assert(less(s[i], s[s.len() - 1]));
                }
            }
        } else {
            let init = s.drop_last();
            assert(ascending(init)) by {
                assert forall|i: int| 0 <= i < init.len() implies !is_nan(#[trigger] init[i]) by {
                    assert(init[i] == s[i]);
                }
                assert forall|i: int, j: int| 0 <= i < j < init.len() implies less(
                    #[trigger] init[i],
                    #[trigger] init[j],
                ) by {
                    assert(less(s[i], s[j]));
                }
            }
            lemma_below(init, v);
            assert forall|i: int| below(s, v) <= i < s.len() implies !less(#[trigger] s[i], v) by {
                if i < init.len() {
                    assert(s[i] == init[i]);
                }
            }
            assert forall|i: int| 0 <= i < below(s, v) implies less(#[trigger] s[i], v) by {
                assert(s[i] == init[i]);
            }
        }
    }
}

/// Putting a number into an ascending sequence keeps it ascending, and
/// the number is then held.
pub proof fn lemma_with_value(s: Seq<u32>, v: u32)
    requires
        ascending(s),
        !is_nan(v),
    ensures
        ascending(with_value(s, v)),
        s.len() <= with_value(s, v).len() <= s.len() + 1,
        with_value(s, v).len() >= 1,
        holds_number(with_value(s, v), v),
{
    let r = with_value(s, v);
    if holds_number(s, v) {
    } else {
        lemma_below(s, v);
        let p = below(s, v);
        assert forall|i: int| 0 <= i < r.len() implies !is_nan(#[trigger] r[i]) by {
            if i < p {
                assert(r[i] == s[i]);
            } else if i > p {
                assert(r[i] == s[i - 1]);
            }
        }
        assert forall|i: int, j: int| 0 <= i < j < r.len() implies less(
            #[trigger] r[i],
            #[trigger] r[j],
        ) by {
            if j < p {
                assert(less(s[i], s[j]));
            } else if j == p {
                assert(less(s[i], v));
            } else if i < p {
                assert(less(s[i], s[j - 1]));
            } else if i == p {
                assert(!less(s[j - 1], v));
                assert(!same(s[j - 1], v));
                assert(!is_nan(s[j - 1]));
            } else {
                assert(less(s[i - 1], s[j - 1]));
            }
        }
        assert(same(r[p], v));
    }
}

/// Putting a number into an ascending sequence loses none of the numbers
/// held before.
pub proof fn lemma_with_value_keeps(s: Seq<u32>, v: u32, w: u32)
    requires
        ascending(s),
        !is_nan(v),
        holds_number(s, w),
    ensures
        holds_number(with_value(s, v), w),
{
    let r = with_value(s, v);
    if !holds_number(s, v) {
        lemma_below(s, v);
        let p = below(s, v);
        let i = choose|i: int| 0 <= i < s.len() && same(#[trigger] s[i], w);
        if i < p {
            assert(same(r[i], w));
        } else {
            assert(same(r[i + 1], w));
        }
    }
}

/// Putting a number into an ascending sequence adds nothing but that
/// number.
pub proof fn lemma_with_value_adds(s: Seq<u32>, v: u32, i: int)
    requires
        ascending(s),
        !is_nan(v),
        0 <= i < with_value(s, v).len(),
    ensures
        with_value(s, v)[i] == v || s.contains(with_value(s, v)[i]),
{
    let r = with_value(s, v);
    if holds_number(s, v) {
        assert(s[i] == r[i]);
    } else {
        lemma_below(s, v);
        let p = below(s, v);
        if i < p {
            assert(s[i] == r[i]);
        } else if i > p {
            assert(s[i - 1] == r[i]);
        }
    }
}

/// Whether `x` stands in `values` with no equal number in front of it.
pub open spec fn is_first(values: Seq<u32>, x: u32) -> bool {
    exists|j: int|
        0 <= j < values.len() && #[trigger] values[j] == x && forall|k: int|
            0 <= k < j ==> !same(#[trigger] values[k], x)
}

/// The sorted set of values that are all numbers is strictly ascending,
/// holds a number equal to each value, and holds nothing but values, of
/// equal ones the first.
pub proof fn lemma_sorted_set(values: Seq<u32>)
    requires
        forall|i: int| 0 <= i < values.len() ==> !is_nan(#[trigger] values[i]),
    ensures
        ascending(sorted_set(values)),
        sorted_set(values).len() <= values.len(),
        values.len() > 0 ==> sorted_set(values).len() > 0,
        forall|i: int| 0 <= i < values.len() ==> holds_number(sorted_set(values), #[trigger] values[i]),
        forall|i: int|
            0 <= i < sorted_set(values).len() ==> values.contains(#[trigger] sorted_set(values)[i]),
        forall|i: int|
            0 <= i < sorted_set(values).len() ==> is_first(values, #[trigger] sorted_set(values)[i]),
    decreases values.len(),
{
    if values.len() > 0 {
        let init = values.drop_last();
        let v = values.last();
        lemma_sorted_set(init);
        let s = sorted_set(init);
        lemma_with_value(s, v);
        let r = sorted_set(values);
        assert(r == with_value(s, v));
        assert forall|i: int| 0 <= i < r.len() implies is_first(values, #[trigger] r[i]) by {
            lemma_with_value_adds(s, v, i);
            if s.contains(r[i]) {
                let k = choose|k: int| 0 <= k < s.len() && s[k] == r[i];
                assert(is_first(init, s[k]));
                let j = choose|j: int|
                    0 <= j < init.len() && #[trigger] init[j] == r[i] && forall|m: int|
                        0 <= m < j ==> !same(#[trigger] init[m], r[i]);
                assert(values[j] == r[i]);
                assert forall|m: int| 0 <= m < j implies !same(#[trigger] values[m], r[i]) by {
                    assert(values[m] == init[m]);
                }
            } else {
                assert(r[i] == v);
                assert(!holds_number(s, v));
                let j = values.len() - 1;
                assert(values[j] == v);
                assert forall|m: int| 0 <= m < j implies !same(#[trigger] values[m], v) by {
                    assert(values[m] == init[m]);
                    assert(holds_number(s, init[m]));
                    if same(init[m], v) {
                        let t = choose|t: int| 0 <= t < s.len() && same(#[trigger] s[t], init[m]);
                        assert(same(s[t], v));
                    }
                }
            }
        }
        assert forall|i: int| 0 <= i < values.len() implies holds_number(r, #[trigger] values[i]) by {
            if i < init.len() {
                assert(values[i] == init[i]);
                assert(holds_number(s, init[i]));
                lemma_with_value_keeps(s, v, init[i]);
            }
        }
        assert forall|i: int| 0 <= i < r.len() implies values.contains(#[trigger] r[i]) by {
            lemma_with_value_adds(s, v, i);
            if r[i] == v {
                assert(values[values.len() - 1] == v);
            } else {
                let k = choose|k: int| 0 <= k < s.len() && s[k] == r[i];
                assert(init.contains(s[k]));
                let m = choose|m: int| 0 <= m < init.len() && init[m] == s[k];
                assert(values[m] == r[i]);
            }
        }
    }
}

/// Puts `v` into the ascending `set`, unless an equal number is there.
pub fn insert_value(set: &mut Vec<u32>, v: u32)
    requires
        ascending(old(set)@),
        !is_nan(v),
    ensures
        final(set)@ == with_value(old(set)@, v),
{
    let len = set.len();
    let mut i: usize = 0;
    while i < len
        invariant
            i <= len,
            len == set@.len(),
            set@ == old(set)@,
            ascending(set@),
            !is_nan(v),
            forall|k: int| 0 <= k < i ==> less(#[trigger] set@[k], v),
        decreases len - i,
    {
        let e = set[i];
        if eq(e, v) {
            return ;
        }
        if !lt(e, v) {
            proof {
                lemma_below(set@, v);
                assert(!holds_number(set@, v)) by {
                    if holds_number(set@, v) {
                        let k = choose|k: int| 0 <= k < set@.len() && same(#[trigger] set@[k], v);
                        if k < i {
                            assert(less(set@[k], v));
                        } else if k > i {
                            assert(less(set@[i as int], set@[k]));
                        }
                    }
                }
                let p = below(set@, v);
                if p < i {
                    assert(less(set@[p], v));
                }
                if p > i {
                    assert(less(set@[i as int], v));
                }
                assert(p == i);
            }
            set.insert(i, v);
            return ;
        }
        i += 1;
    }
    proof {
        lemma_below(set@, v);
        assert(!holds_number(set@, v)) by {
            if holds_number(set@, v) {
                let k = choose|k: int| 0 <= k < set@.len() && same(#[trigger] set@[k], v);
                assert(less(set@[k], v));
            }
        }
        let p = below(set@, v);
        if p < len {
            assert(less(set@[p], v));
        }
    }
    set.insert(len, v);
}

/// Sorts jump sizes into an ascending set. Fails on the first value that
/// is a NaN or below zero.
pub fn mu_set_from_values(values: &Vec<u32>) -> (r: Result<Vec<u32>, MuSetError>)
    ensures
        r is Ok <==> forall|i: int| 0 <= i < values@.len() ==> admissible(#[trigger] values@[i]),
        r matches Ok(set) ==> set@ == sorted_set(values@),
        r matches Err(e) ==> exists|i: int|
            {
                &&& 0 <= i < values@.len()
                &&& !admissible(#[trigger] values@[i])
                &&& forall|j: int| 0 <= j < i ==> admissible(#[trigger] values@[j])
                &&& e == if is_nan(values@[i]) {
                    MuSetError::NotANumber
                } else {
                    MuSetError::Negative
                }
            },
{
    let mut set: Vec<u32> = Vec::new();
    let mut i: usize = 0;
    while i < values.len()
        invariant
            i <= values@.len(),
            forall|j: int| 0 <= j < i ==> admissible(#[trigger] values@[j]),
            set@ == sorted_set(values@.take(i as int)),
            ascending(set@),
        decreases values@.len() - i,
    {
        let v = values[i];
        if nan(v) {
            return Err(MuSetError::NotANumber);
        }
        if lt(v, ZERO) {
            return Err(MuSetError::Negative);
        }
        proof {
            assert(values@.take(i + 1).drop_last() =~= values@.take(i as int));
            lemma_with_value(set@, v);
        }
        insert_value(&mut set, v);
        i += 1;
    }
    proof {
        assert(values@.take(values@.len() as int) =~= values@);
    }
    Ok(set)
}

/// Whether `c` is white space: one of the code points that Unicode gives
/// the property White_Space.
pub open spec fn is_space(c: char) -> bool {
    let u = c as u32;
    ||| 0x09 <= u <= 0x0D
    ||| u == 0x20
    ||| u == 0x85
    ||| u == 0xA0
    ||| u == 0x1680
    ||| 0x2000 <= u <= 0x200A
    ||| u == 0x2028
    ||| u == 0x2029
    ||| u == 0x202F
    ||| u == 0x205F
    ||| u == 0x3000
}

/// Tests whether `c` is white space.
pub fn space(c: char) -> (r: bool)
    ensures
        r == is_space(c),
{
    let u: u32 = c as u32;
    (0x09 <= u && u <= 0x0D) || u == 0x20 || u == 0x85 || u == 0xA0 || u == 0x1680 || (0x2000 <= u
        && u <= 0x200A) || u == 0x2028 || u == 0x2029 || u == 0x202F || u == 0x205F || u == 0x3000
}

/// `t` without the white space at its start.
pub open spec fn trim_start(t: Seq<char>) -> Seq<char>
    decreases t.len(),
{
    if t.len() > 0 && is_space(t[0]) {
        trim_start(t.subrange(1, t.len() as int))
    } else {
        t
    }
}

/// `t` without the white space at its end.
pub open spec fn trim_end(t: Seq<char>) -> Seq<char>
    decreases t.len(),
{
    if t.len() > 0 && is_space(t.last()) {
        trim_end(t.drop_last())
    } else {
        t
    }
}

/// `t` without the white space at either end.
pub open spec fn trimmed(t: Seq<char>) -> Seq<char> {
    trim_end(trim_start(t))
}

/// The pieces of `s` between its commas, in order; there is one more
/// piece than there are commas, and a piece may be empty.
pub open spec fn parts(s: Seq<char>) -> Seq<Seq<char>>
    decreases s.len(),
{
    if s.len() == 0 {
        seq![Seq::empty()]
    } else {
        let init = parts(s.drop_last());
        if s.last() == ',' {
            init.push(Seq::empty())
        } else {
            init.drop_last().push(init.last().push(s.last()))
        }
    }
}

/// The pieces, each trimmed, those that are then empty left out.
pub open spec fn entries_of(pieces: Seq<Seq<char>>) -> Seq<Seq<char>>
    decreases pieces.len(),
{
    if pieces.len() == 0 {
        Seq::empty()
    } else {
        let rest = entries_of(pieces.drop_last());
        let t = trimmed(pieces.last());
        if t.len() == 0 {
            rest
        } else {
            rest.push(t)
        }
    }
}

/// The entries of a comma-separated list: what stands between the
/// commas, trimmed, where anything is left.
pub open spec fn entries(s: Seq<char>) -> Seq<Seq<char>> {
    entries_of(parts(s))
}

/// The reader accepts every text.
pub open spec fn reads_all<P: Fn(&str) -> Option<u32>>(read: &P) -> bool {
    forall|t: &str| #[trigger] read.requires((t,))
}

/// `r` is what the reader may give for the text `entry`.
pub open spec fn reads<P: Fn(&str) -> Option<u32>>(read: &P, entry: Seq<char>, r: Option<u32>) -> bool {
    exists|t: &str| #![trigger read.ensures((t,), r)] t@ == entry && read.ensures((t,), r)
}

/// The error, if any, that an entry read as `r` brings.
pub open spec fn refusal(r: Option<u32>) -> Option<MuSetError> {
    match r {
        None => Some(MuSetError::Malformed),
        Some(v) => if less(v, ZERO) {
            Some(MuSetError::Negative)
        } else if is_nan(v) {
            Some(MuSetError::NotANumber)
        } else {
            None
        },
    }
}

/// The jump size that an entry read as `x` stands for, or the error that
/// it brings.
pub fn accept(x: Option<u32>) -> (r: Result<u32, MuSetError>)
    ensures
        match refusal(x) {
            Some(e) => r == Err::<u32, MuSetError>(e),
            None => x matches Some(v) && r == Ok::<u32, MuSetError>(v) && admissible(v),
        },
{
    match x {
        None => Err(MuSetError::Malformed),
        Some(v) => {
            if lt(v, ZERO) {
                Err(MuSetError::Negative)
            } else if nan(v) {
                Err(MuSetError::NotANumber)
            } else {
                Ok(v)
            }
        },
    }
}

/// `values` is what the reader may give for the entries, one for one,
/// none of them refused.
pub open spec fn read_as<P: Fn(&str) -> Option<u32>>(
    read: &P,
    list: Seq<Seq<char>>,
    values: Seq<u32>,
) -> bool {
    &&& values.len() == list.len()
    &&& forall|j: int|
        0 <= j < list.len() ==> reads(read, list[j], Some(#[trigger] values[j])) && admissible(
            values[j],
        )
}

/// Reading the entries fails at entry `j` with the error `e`: the entries
/// before it are read as jump sizes, and what the reader gives for entry
/// `j` is refused with `e`.
pub open spec fn fails_at<P: Fn(&str) -> Option<u32>>(
    read: &P,
    list: Seq<Seq<char>>,
    j: int,
    e: MuSetError,
) -> bool {
    &&& 0 <= j < list.len()
    &&& exists|values: Seq<u32>| #[trigger] read_as(read, list.take(j), values)
    &&& exists|x: Option<u32>| #[trigger] reads(read, list[j], x) && refusal(x) == Some(e)
}

/// The piece of `s` from `start` to `end`, trimmed, as a range of
/// positions.
fn trim_range(s: &str, start: usize, end: usize) -> (r: (usize, usize))
    requires
        start <= end <= s@.len(),
    ensures
        start <= r.0 <= r.1 <= end,
        s@.subrange(r.0 as int, r.1 as int) == trimmed(s@.subrange(start as int, end as int)),
{
    let mut a: usize = start;
    while a < end && space(s.get_char(a))
        invariant
            start <= a <= end <= s@.len(),
            trim_start(s@.subrange(start as int, end as int)) == trim_start(
                s@.subrange(a as int, end as int),
            ),
        decreases end - a,
    {
        proof {
            let t = s@.subrange(a as int, end as int);
            assert(t[0] == s@[a as int]);
            assert(t.subrange(1, t.len() as int) =~= s@.subrange(a + 1, end as int));
        }
        a += 1;
    }
    proof {
        let t = s@.subrange(a as int, end as int);
        if a < end {
            assert(t[0] == s@[a as int]);
        }
        assert(trim_start(t) == t);
    }
    let mut b: usize = end;
    while b > a && space(s.get_char(b - 1))
        invariant
            a <= b <= end <= s@.len(),
            trim_end(s@.subrange(a as int, end as int)) == trim_end(s@.subrange(a as int, b as int)),
        decreases b - a,
    {
        proof {
            let t = s@.subrange(a as int, b as int);
            assert(t.last() == s@[b - 1]);
            assert(t.drop_last() =~= s@.subrange(a as int, b - 1));
        }
        b -= 1;
    }
    proof {
        let t = s@.subrange(a as int, b as int);
        if b > a {
            assert(t.last() == s@[b - 1]);
        }
        assert(trim_end(t) == t);
    }
    (a, b)
}

/// Reads a comma-separated list of jump sizes into an ascending set.
///
/// The entries are what stands between the commas, trimmed; empty ones
/// are passed over. Each is handed to `read`, from the first to the last.
/// The first entry that is not a number, is below zero or is a NaN ends
/// the reading with its error; a list without entries is an error too.
pub fn parse_mu_set<P: Fn(&str) -> Option<u32>>(s: &str, read: &P) -> (r: Result<Vec<u32>, MuSetError>)
    requires
        reads_all(read),
    ensures
        r matches Ok(set) ==> exists|values: Seq<u32>|
            {
                &&& #[trigger] read_as(read, entries(s@), values)
                &&& set@ == sorted_set(values)
                &&& set@.len() > 0
                &&& ascending(set@)
            },
        r matches Err(e) ==> e == MuSetError::Empty && entries(s@).len() == 0 || exists|j: int|
            #[trigger] fails_at(read, entries(s@), j, e),
        entries(s@).len() == 0 ==> r == Err::<Vec<u32>, MuSetError>(MuSetError::Empty),
{
    let len = s.unicode_len();
    let mut values: Vec<u32> = Vec::new();
    let ghost mut done: Seq<Seq<char>> = Seq::empty();
    let mut start: usize = 0;
    let mut i: usize = 0;
    while i < len
        invariant
            i <= len,
            len == s@.len(),
            start <= i,
            reads_all(read),
            parts(s@.take(i as int)).len() > 0,
            parts(s@.take(i as int)).last() == s@.subrange(start as int, i as int),
            done == entries_of(parts(s@.take(i as int)).drop_last()),
            read_as(read, done, values@),
        decreases len - i,
    {
        let c = s.get_char(i);
        proof {
            assert(s@.take(i + 1).drop_last() =~= s@.take(i as int));
            assert(s@.take(i + 1).last() == c);
        }
        if c == ',' {
            let (a, b) = trim_range(s, start, i);
            let ghost before = parts(s@.take(i as int));
            proof {
                assert(parts(s@.take(i + 1)) == before.push(Seq::empty()));
                assert(before.push(Seq::<char>::empty()).drop_last() =~= before);
                assert(before.push(Seq::<char>::empty()).last() =~= s@.subrange(i + 1, i + 1));
                lemma_entries_prefix(s@, i + 1);
            }
            if a < b {
                let entry = s.substring_char(a, b);
                let x = read(entry);
                proof {
                    assert(reads(read, entry@, x));
                    let found = entries_of(before);
                    assert(found == done.push(entry@));
                    assert(found.is_prefix_of(entries(s@)));
                    assert(found[done.len() as int] == entries(s@).subrange(
                        0,
                        found.len() as int,
                    )[done.len() as int]);
                    assert(entries(s@)[done.len() as int] == entry@);
                    assert(entries(s@).take(done.len() as int) =~= done);
                    assert(refusal(x) is Some ==> fails_at(
                        read,
                        entries(s@),
                        done.len() as int,
                        refusal(x)->0,
                    ));
                }
                match accept(x) {
                    Err(e) => {
                        return Err(e);
                    },
                    Ok(v) => {
                        values.push(v);
                        proof {
                            done = done.push(entry@);
                        }
                    },
                }
            }
            start = i + 1;
        } else {
            proof {
                let init = parts(s@.take(i as int));
                assert(parts(s@.take(i + 1)) == init.drop_last().push(init.last().push(c)));
                assert(init.drop_last().push(init.last().push(c)).drop_last() =~= init.drop_last());
                assert(s@.subrange(start as int, i as int).push(c) =~= s@.subrange(
                    start as int,
                    i + 1,
                ));
            }
        }
        i += 1;
    }
    let (a, b) = trim_range(s, start, len);
    proof {
        assert(s@.take(len as int) =~= s@);
    }
    if a < b {
        let entry = s.substring_char(a, b);
        let x = read(entry);
        proof {
            assert(reads(read, entry@, x));
            assert(entries(s@) == done.push(entry@));
            assert(entries(s@)[done.len() as int] == entry@);
            assert(entries(s@).take(done.len() as int) =~= done);
            assert(refusal(x) is Some ==> fails_at(
                read,
                entries(s@),
                done.len() as int,
                refusal(x)->0,
            ));
        }
        match accept(x) {
            Err(e) => {
                return Err(e);
            },
            Ok(v) => {
                values.push(v);
                proof {
                    done = done.push(entry@);
                }
            },
        }
    }
    assert(done == entries(s@));
    if values.len() == 0 {
        return Err(MuSetError::Empty);
    }
    proof {
        lemma_sorted_set(values@);
        assert(read_as(read, entries(s@), values@));
    }
    mu_set_from_values(&values)
}

/// The entries found in the pieces before the last piece of a prefix of
/// `s` are the first entries of `s`.
pub proof fn lemma_entries_prefix(s: Seq<char>, i: int)
    requires
        0 <= i <= s.len(),
    ensures
        parts(s.take(i)).len() > 0,
        entries_of(parts(s.take(i)).drop_last()).is_prefix_of(entries(s)),
    decreases s.len() - i,
{
    lemma_parts_nonempty(s.take(i));
    let here = parts(s.take(i));
    let found = entries_of(here.drop_last());
    if i == s.len() {
        assert(s.take(i) =~= s);
        let all = entries_of(here);
        assert(all == if trimmed(here.last()).len() == 0 {
            found
        } else {
            found.push(trimmed(here.last()))
        });
        assert(found =~= all.subrange(0, found.len() as int));
    } else {
        lemma_entries_prefix(s, i + 1);
        let next = parts(s.take(i + 1));
        let found_next = entries_of(next.drop_last());
        assert(s.take(i + 1).drop_last() =~= s.take(i));
        assert(s.take(i + 1).last() == s[i]);
        if s[i] == ',' {
            assert(next == here.push(Seq::empty()));
            assert(next.drop_last() =~= here);
            assert(found_next == if trimmed(here.last()).len() == 0 {
                found
            } else {
                found.push(trimmed(here.last()))
            });
        } else {
            assert(next == here.drop_last().push(here.last().push(s[i])));
            assert(next.drop_last() =~= here.drop_last());
        }
        assert(found =~= found_next.subrange(0, found.len() as int));
        assert(found_next =~= entries(s).subrange(0, found_next.len() as int));
        assert(found =~= entries(s).subrange(0, found.len() as int));
    }
}

/// There is always at least one piece.
pub proof fn lemma_parts_nonempty(s: Seq<char>)
    ensures
        parts(s).len() > 0,
    decreases s.len(),
{
    if s.len() > 0 {
        lemma_parts_nonempty(s.drop_last());
    }
}

} // verus!
